//! Build targets: a named profile that names a base-OS template and pins the
//! machine settings a build for that hardware needs. The bundled profiles are
//! overlaid by the user's own, a user target winning on a name clash.

use crate::config::{copy_opt, copy_strings, BuildConfig};
use crate::keyed::{lookup, overlay, Keyed};
use vstd::prelude::*;

verus! {

/// A named build profile.
#[derive(Clone, Debug, PartialEq)]
pub struct Target {
    /// Template key resolved against the template registry.
    pub base_os: String,
    /// Art-depth variants to bake; empty leaves the build's own.
    pub art_depths: Vec<String>,
    /// Launcher memory partition `[preferred_kb, minimum_kb]`.
    pub app_mem_kb: Option<[u32; 2]>,
    /// Final image size in MB.
    pub disk_size_mb: Option<u64>,
    /// Art downscale box `"WxH"`.
    pub max_art_size: Option<String>,
    /// Human description shown in the picker.
    pub label: String,
}

impl Target {
    /// Stamp this profile onto a build: set `base_os`, clear any explicit
    /// `system` so the template registry resolves it, and overwrite only the
    /// machine settings the profile pins; every other field stays.
    pub fn apply_to(&self, c: &mut BuildConfig)
        ensures
            *final(c) == (BuildConfig {
                base_os: Some(self.base_os),
                system: None,
                art_depths: final(c).art_depths,
                app_mem_kb: if self.app_mem_kb is Some { self.app_mem_kb } else { old(c).app_mem_kb },
                disk_size_mb: if self.disk_size_mb is Some { self.disk_size_mb } else { old(c).disk_size_mb },
                max_art_size: if self.max_art_size is Some { self.max_art_size } else { old(c).max_art_size },
                ..*old(c)
            }),
            final(c).art_depths@ == if self.art_depths@.len() > 0 { self.art_depths@ } else { old(c).art_depths@ },
    {
        c.base_os = Some(self.base_os.clone());
        c.system = None;
        if self.art_depths.len() > 0 {
            c.art_depths = copy_strings(&self.art_depths);
        }
        if self.app_mem_kb.is_some() {
            c.app_mem_kb = self.app_mem_kb;
        }
        if self.disk_size_mb.is_some() {
            c.disk_size_mb = self.disk_size_mb;
        }
        if self.max_art_size.is_some() {
            c.max_art_size = copy_opt(&self.max_art_size);
        }
    }
}

/// Name → [`Target`], names ascending.
#[derive(Clone, Debug)]
pub struct Registry(pub Keyed<Target>);

impl Default for Registry {
    /// The empty registry.
    fn default() -> (r: Self)
        ensures
            r.0.wf(),
            r.0.entries@.len() == 0,
    {
        Registry(Keyed::new())
    }
}

impl Registry {
    /// The bundled targets overlaid with the user's: a user target replaces a
    /// bundled one of the same name.
    pub fn load_default(bundled: Registry, user: Keyed<Target>) -> (r: Registry)
        requires
            bundled.0.wf(),
            user.wf(),
        ensures
            r.0.wf(),
            forall|k: Seq<char>| #[trigger] lookup(r.0.entries@, k) == overlay(bundled.0.entries@, user.entries@, k),
    {
        let mut reg = bundled;
        reg.0.extend(user);
        reg
    }

    /// The target named `name`.
    pub fn get(&self, name: &str) -> (r: Option<&Target>)
        ensures
            match r {
                Some(t) => lookup(self.0.entries@, name@) == Some(*t),
                None => lookup(self.0.entries@, name@) is None,
            },
    {
        self.0.get(name)
    }

    /// Target names, ascending.
    pub fn names(&self) -> (r: Vec<String>)
        ensures
            r@.len() == self.0.entries@.len(),
            forall|j: int| 0 <= j < r@.len() ==> (#[trigger] r@[j])@ == self.0.entries@[j].0@,
    {
        self.0.keys()
    }
}

} // verus!
