//! The base-OS template registry: each OS key ("6.0.8", "7.1", …) maps to a
//! base image and how the launcher is deployed on it (as the Finder on
//! System 6, into Startup Items on System 7). A build's `base_os` is resolved
//! against it; an explicit `system` always wins.

use crate::config::BuildConfig;
use crate::keyed::{lookup, overlay, Keyed};
use crate::text::{append, join_strings, join_with, views};
use vstd::prelude::*;

verus! {

/// One base-OS template.
#[derive(Clone, Debug, PartialEq)]
pub struct Template {
    /// Base bootable System image for this OS.
    pub hda: String,
    /// Human label (e.g. "System 6.0.8").
    pub label: String,
    /// Deploy the launcher as the Finder (System 6) vs into Startup Items.
    pub finder_replace: bool,
    /// Startup Items folder used when not `finder_replace`.
    pub startup_items: String,
}

/// OS key → [`Template`], keys ascending.
#[derive(Clone, Debug)]
pub struct Registry(pub Keyed<Template>);

impl Default for Registry {
    /// The empty registry.
    fn default() -> (r: Self)
        ensures
            r.0.wf(),
            r.0.entries@.len() == 0,
    {
        Registry(Keyed::new())
    }
}

impl Registry {
    /// The registry the template file gave, or the empty one where the file
    /// is absent (the normal case for an installed app).
    pub fn bundled(loaded: Option<Registry>) -> (r: Registry)
        ensures
            match loaded {
                Some(g) => r == g,
                None => r.0.entries@.len() == 0,
            },
    {
        match loaded {
            Some(g) => g,
            None => Registry::default(),
        }
    }

    /// The file registry overlaid with the user's templates: a user entry
    /// wins on a key clash.
    pub fn load_default(file: Registry, user: Keyed<Template>) -> (r: Registry)
        requires
            file.0.wf(),
            user.wf(),
        ensures
            r.0.wf(),
            forall|k: Seq<char>| #[trigger] lookup(r.0.entries@, k) == overlay(file.0.entries@, user.entries@, k),
    {
        let mut reg = file;
        reg.0.extend(user);
        reg
    }

    /// The template under `os`.
    pub fn get(&self, os: &str) -> (r: Option<&Template>)
        ensures
            match r {
                Some(t) => lookup(self.0.entries@, os@) == Some(*t),
                None => lookup(self.0.entries@, os@) is None,
            },
    {
        self.0.get(os)
    }

    /// OS keys, ascending.
    pub fn keys(&self) -> (r: Vec<String>)
        ensures
            r@.len() == self.0.entries@.len(),
            forall|j: int| 0 <= j < r@.len() ==> (#[trigger] r@[j])@ == self.0.entries@[j].0@,
    {
        self.0.keys()
    }
}

/// Why a build's base system could not be resolved.
#[derive(Clone, Debug)]
pub enum ResolveError {
    /// Neither `system` nor `base_os` is set.
    NoBaseSystem,
    /// `base_os` names no template; `have` lists the keys there are, or says
    /// that none are configured.
    UnknownBaseOs { os: String, have: String },
}

/// The text of an error that names an unknown OS key.
pub open spec fn unknown_os_text(os: Seq<char>, have: Seq<char>) -> Seq<char> {
    "unknown base_os "@ + crate::text::debug_text(os) + " — not in the template registry (have: "@ + have
        + "). Add it under Settings → Templates, or set an explicit `system` path."@
}

impl ResolveError {
    /// The message shown to the user; it names the fix.
    pub fn message(&self) -> (r: String)
        ensures
            match self {
                ResolveError::NoBaseSystem => r@
                    == "no base system: set `system`, or `base_os` with a template registry"@,
                ResolveError::UnknownBaseOs { os, have } => r@ == unknown_os_text(os@, have@),
            },
    {
        match self {
            ResolveError::NoBaseSystem => "no base system: set `system`, or `base_os` with a template registry".to_owned(),
            ResolveError::UnknownBaseOs { os, have } => {
                let mut m = "unknown base_os ".to_owned();
                append(&mut m, crate::text::debug_str(os.as_str()).as_str());
                append(&mut m, " — not in the template registry (have: ");
                append(&mut m, have.as_str());
                append(&mut m, "). Add it under Settings → Templates, or set an explicit `system` path.");
                m
            },
        }
    }
}

/// What a lookup miss reports the registry has: its keys joined by ", ", or
/// "none configured" when it is empty.
pub open spec fn have_text<T>(e: Seq<(String, T)>) -> Seq<char> {
    if e.len() == 0 {
        "none configured"@
    } else {
        join_with(e.map_values(|p: (String, T)| p.0@), ", "@)
    }
}

/// Resolve `base_os` against the registry, filling `system` and the deploy
/// mode from its template. An explicit `system` wins and the registry is not
/// consulted. Every other field is returned as it came.
pub fn resolve(cfg: BuildConfig, reg: &Registry) -> (r: Result<BuildConfig, ResolveError>)
    ensures
        cfg.system is Some ==> r == Ok::<BuildConfig, ResolveError>(cfg),
        cfg.system is None ==> match cfg.base_os {
            None => r == Err::<BuildConfig, ResolveError>(ResolveError::NoBaseSystem),
            Some(os) => match lookup(reg.0.entries@, os@) {
                Some(t) => r == Ok::<BuildConfig, ResolveError>(BuildConfig {
                    system: Some(t.hda),
                    finder_replace: t.finder_replace,
                    startup_items: t.startup_items,
                    ..cfg
                }),
                None => r matches Err(ResolveError::UnknownBaseOs { os: o, have })
                    && o@ == os@ && have@ == have_text(reg.0.entries@),
            },
        },
{
    if cfg.system.is_some() {
        return Ok(cfg);
    }
    let os = match &cfg.base_os {
        Some(os) => os.clone(),
        None => return Err(ResolveError::NoBaseSystem),
    };
    match reg.get(os.as_str()) {
        Some(t) => {
            let mut out = cfg;
            out.system = Some(t.hda.clone());
            out.finder_replace = t.finder_replace;
            out.startup_items = t.startup_items.clone();
            Ok(out)
        },
        None => {
            let have = if reg.0.is_empty() {
                "none configured".to_owned()
            } else {
                let keys = reg.keys();
                proof {
                    assert(views(keys@) =~= reg.0.entries@.map_values(|p: (String, Template)| p.0@));
                }
                join_strings(&keys, ", ")
            };
            Err(ResolveError::UnknownBaseOs { os, have })
        },
    }
}

} // verus!
