//! The build model: `BuildConfig` is the one description of an image build,
//! read from `--config` JSON or filled in field by field. Paths are held as
//! their text.

use vstd::prelude::*;

verus! {

/// Default Startup Items folder on the volume.
pub fn d_startup() -> (r: String)
    ensures
        r@ == "/System Folder/Startup Items"@,
{
    "/System Folder/Startup Items".to_owned()
}

/// Default LaunchBox platform name.
pub fn d_platform() -> (r: String)
    ensures
        r@ == "Apple Mac OS"@,
{
    "Apple Mac OS".to_owned()
}

/// Default `rb-cli` binary.
pub fn d_rbcli() -> (r: String)
    ensures
        r@ == "rb-cli"@,
{
    "rb-cli".to_owned()
}

/// Default folder the apps are installed under on the volume.
pub fn d_apps_root() -> (r: String)
    ensures
        r@ == "/MacAtrium/Apps"@,
{
    "/MacAtrium/Apps".to_owned()
}

/// Default metadata folder on the volume.
pub fn d_metadir() -> (r: String)
    ensures
        r@ == "/MacAtrium/metadata"@,
{
    "/MacAtrium/metadata".to_owned()
}

/// Default artwork folder on the volume.
pub fn d_imagesdir() -> (r: String)
    ensures
        r@ == "/MacAtrium/images"@,
{
    "/MacAtrium/images".to_owned()
}

/// Default artwork depth.
pub fn d_artdepth() -> (r: String)
    ensures
        r@ == "8"@,
{
    "8".to_owned()
}

/// Default `curl` binary.
pub fn d_curl() -> (r: String)
    ensures
        r@ == "curl"@,
{
    "curl".to_owned()
}

/// Default folder for the chimes on the volume.
pub fn d_sounds_dir() -> (r: String)
    ensures
        r@ == "/MacAtrium/sounds"@,
{
    "/MacAtrium/sounds".to_owned()
}

/// Hard ceiling for a built image: classic HFS tops out at 2 GB in practice.
pub const MAX_DISK_MB: u64 = 2048;

/// One harvest source: a donor disk image plus the app paths to pull from it
/// (the manual selection path; `Selection` is the dataset-driven one).
#[derive(Clone, Default, Debug)]
pub struct HarvestSrc {
    pub image: String,
    pub apps: Vec<String>,
    pub scan: Option<String>,
}

/// How to choose which dataset apps go into the image.
#[derive(Clone, Debug)]
pub enum Selection {
    /// Everything harvestable that is compatible with the target OS.
    All,
    /// An explicit list of dataset ids.
    List { ids: Vec<String> },
    /// Every app whose categories or genre meet this list.
    Categories { categories: Vec<String> },
}

impl Default for Selection {
    /// An empty explicit list.
    fn default() -> (r: Self)
        ensures
            r matches Selection::List { ids } && ids@.len() == 0,
    {
        Selection::List { ids: Vec::new() }
    }
}

/// A whole build.
#[derive(Clone, Debug)]
pub struct BuildConfig {
    /// Base bootable System image; or resolve it from `base_os`.
    pub system: Option<String>,
    /// Template key resolved against the template registry.
    pub base_os: Option<String>,
    /// Output image (overwritten).
    pub out: String,
    /// The launcher MacBinary to install.
    pub launcher: String,
    /// Curated dataset (copied; never mutated by the build).
    pub dataset: String,
    /// Final image size in MB, capped at `MAX_DISK_MB`; `None` keeps the base size.
    pub disk_size_mb: Option<u64>,
    /// Which dataset apps to include; `None` falls back to `harvest`.
    pub selection: Option<Selection>,
    pub startup_items: String,
    /// Manual overrides overlay (applied after enrich).
    pub overrides: Option<String>,
    /// LaunchBox Metadata.xml; when set, the dataset is enriched.
    pub metadata: Option<String>,
    /// Macintosh Garden archive root.
    pub mg_archive: Option<String>,
    pub platform: String,
    /// Auto-detect colour from LaunchBox screenshots during enrich.
    pub detect_color: bool,
    pub curl: String,
    /// Apps to harvest from donor images (manual path).
    pub harvest: Vec<HarvestSrc>,
    /// Directory of source artwork named `<id>.png` / `.jpg`.
    pub art_dir: Option<String>,
    pub art_depth: String,
    /// Depth variants to generate, named `<id>.<depth>.pict`.
    pub art_depths: Vec<String>,
    /// Longest side of downscaled art, in pixels.
    pub art_max: Option<u32>,
    /// Download Box-Front art from LaunchBox (needs `metadata`).
    pub download_art: bool,
    pub rb_cli: String,
    pub apps_root: String,
    pub metadata_dir: String,
    pub images_dir: String,
    /// Staging dir for intermediates (default: a temp dir).
    pub stage: Option<String>,
    /// Optional startup chime (PCM WAV).
    pub startup_sound: Option<String>,
    /// Optional shutdown chime (PCM WAV).
    pub shutdown_sound: Option<String>,
    /// Where the chimes live on the volume.
    pub sounds_dir: String,
    /// System 6: install the launcher as the Finder.
    pub finder_replace: bool,
    /// Launcher memory partition `[preferred_kb, minimum_kb]` for its `'SIZE'`.
    pub app_mem_kb: Option<[u32; 2]>,
    /// Art downscale box `"WxH"`.
    pub max_art_size: Option<String>,
}

impl Default for BuildConfig {
    /// Every path empty, every option unset, every name at its `d_*` default.
    fn default() -> (c: Self)
        ensures
            c.system is None,
            c.base_os is None,
            c.out@.len() == 0,
            c.launcher@.len() == 0,
            c.dataset@.len() == 0,
            c.disk_size_mb is None,
            c.selection is None,
            c.startup_items@ == "/System Folder/Startup Items"@,
            c.overrides is None,
            c.metadata is None,
            c.mg_archive is None,
            c.platform@ == "Apple Mac OS"@,
            !c.detect_color,
            c.curl@ == "curl"@,
            c.harvest@.len() == 0,
            c.art_dir is None,
            c.art_depth@ == "8"@,
            c.art_depths@.len() == 0,
            c.art_max is None,
            !c.download_art,
            c.rb_cli@ == "rb-cli"@,
            c.apps_root@ == "/MacAtrium/Apps"@,
            c.metadata_dir@ == "/MacAtrium/metadata"@,
            c.images_dir@ == "/MacAtrium/images"@,
            c.stage is None,
            c.startup_sound is None,
            c.shutdown_sound is None,
            c.sounds_dir@ == "/MacAtrium/sounds"@,
            !c.finder_replace,
            c.app_mem_kb is None,
            c.max_art_size is None,
    {
        BuildConfig {
            system: None,
            base_os: None,
            out: String::new(),
            launcher: String::new(),
            dataset: String::new(),
            disk_size_mb: None,
            selection: None,
            startup_items: d_startup(),
            overrides: None,
            metadata: None,
            mg_archive: None,
            platform: d_platform(),
            detect_color: false,
            curl: d_curl(),
            harvest: Vec::new(),
            art_dir: None,
            art_depth: d_artdepth(),
            art_depths: Vec::new(),
            art_max: None,
            download_art: false,
            rb_cli: d_rbcli(),
            apps_root: d_apps_root(),
            metadata_dir: d_metadir(),
            images_dir: d_imagesdir(),
            stage: None,
            startup_sound: None,
            shutdown_sound: None,
            sounds_dir: d_sounds_dir(),
            finder_replace: false,
            app_mem_kb: None,
            max_art_size: None,
        }
    }
}

/// A copy of a list of strings.
pub fn copy_strings(v: &Vec<String>) -> (r: Vec<String>)
    ensures
        r@ == v@,
{
    let mut r: Vec<String> = Vec::new();
    let mut i: usize = 0;
    while i < v.len()
        invariant
            i <= v@.len(),
            r@ == v@.take(i as int),
        decreases v@.len() - i,
    {
        r.push(v[i].clone());
        i = i + 1;
        assert(r@ =~= v@.take(i as int));
    }
    assert(v@.take(v@.len() as int) =~= v@);
    r
}

/// A copy of an optional string.
pub fn copy_opt(o: &Option<String>) -> (r: Option<String>)
    ensures
        r == *o,
{
    match o {
        Some(s) => Some(s.clone()),
        None => None,
    }
}

} // verus!
