//! The decisions of the image build: its course of steps and the next move
//! after each outcome, the Finder flag of the launcher's MacBinary header,
//! which System folders take the launcher, the runtime dependencies the
//! titles require and where they install, the art source a title uses and
//! the overlay record of its baked art, and the resource ids of baked art.
//! Running each step (rb-cli, files) is the caller's part.

use crate::keyed::{key_lt, lemma_lookup_some_iff, lookup, Keyed};
use crate::text::{chars_of, contains_seq, contains_str, trim_seq, trim_str};
use vstd::prelude::*;

verus! {

/// Set the "has bundle" Finder flag and clear "on desk" in a MacBinary
/// header's Finder-flags byte (offset 73), where the header is that long.
pub fn set_bundle_bit(bytes: &mut Vec<u8>)
    ensures
        final(bytes)@.len() == old(bytes)@.len(),
        old(bytes)@.len() > 73 ==> final(bytes)@ == old(bytes)@.update(73, ((old(bytes)@[73] | 0x20u8) & !0x01u8) as u8),
        old(bytes)@.len() <= 73 ==> final(bytes)@ == old(bytes)@,
{
    if bytes.len() > 73 {
        let b = bytes[73];
        bytes.set(73, (b | 0x20) & !0x01);
    }
}

/// A folder name that holds an installable System 6 version (6.0.4 to 6.0.8).
pub open spec fn system6_name(name: Seq<char>) -> bool {
    contains_seq(name, "6.0.4"@) || contains_seq(name, "6.0.5"@) || contains_seq(name, "6.0.6"@)
        || contains_seq(name, "6.0.7"@) || contains_seq(name, "6.0.8"@)
}

/// Whether a System folder is an installable System 6 (at or above the
/// 6.0.4 floor), judged by its name.
pub fn is_system6_folder_name(name: &str) -> (r: bool)
    ensures
        r == system6_name(name@),
{
    let cs = chars_of(name);
    contains_str(cs.as_slice(), "6.0.4") || contains_str(cs.as_slice(), "6.0.5") || contains_str(cs.as_slice(), "6.0.6")
        || contains_str(cs.as_slice(), "6.0.7") || contains_str(cs.as_slice(), "6.0.8")
}

/// Whether a dependency installs into a System folder: one of its OS
/// versions occurs in the folder's name (never, with no versions).
pub fn dep_installs_on(install_os: &Vec<String>, folder_name: &str) -> (r: bool)
    ensures
        r == exists|i: int| 0 <= i < install_os@.len() && contains_seq(folder_name@, #[trigger] install_os@[i]@),
{
    let cs = chars_of(folder_name);
    let mut i: usize = 0;
    while i < install_os.len()
        invariant
            i <= install_os@.len(),
            cs@ == folder_name@,
            forall|j: int| 0 <= j < i ==> !contains_seq(folder_name@, #[trigger] install_os@[j]@),
        decreases install_os@.len() - i,
    {
        if contains_str(cs.as_slice(), install_os[i].as_str()) {
            return true;
        }
        i = i + 1;
    }
    false
}

/// The resource id of an art variant of a given depth: 128 + bits.
pub fn art_res_id(bits: u16) -> (r: i16)
    requires
        bits <= 65407,
    ensures
        r == ((128 + bits) as u16) as i16,
{
    (128 + bits) as i16
}

/// Some record requires the dependency `t`: a required id, trimmed, is `t`,
/// and `t` is not empty.
pub open spec fn required(needs: Seq<String>, t: Seq<char>) -> bool {
    t.len() > 0 && exists|i: int| 0 <= i < needs.len() && trim_seq(#[trigger] needs[i]@) == t
}

/// The distinct dependency ids the records require (every record's
/// `requires` list, joined into `needs`), trimmed, empty ones left out,
/// in ascending order for a stable build log.
pub fn required_dep_ids(needs: &Vec<String>) -> (r: Vec<String>)
    ensures
        forall|a: int, b: int| 0 <= a < b < r@.len() ==> key_lt(#[trigger] r@[a]@, #[trigger] r@[b]@),
        forall|t: Seq<char>| required(needs@, t) <==> exists|j: int| 0 <= j < r@.len() && #[trigger] r@[j]@ == t,
{
    let mut set: Keyed<bool> = Keyed::new();
    let mut i: usize = 0;
    while i < needs.len()
        invariant
            i <= needs@.len(),
            set.wf(),
            forall|t: Seq<char>| #[trigger] lookup(set.entries@, t) is Some <==> (t.len() > 0 && exists|j: int|
                0 <= j < i && trim_seq(#[trigger] needs@[j]@) == t),
        decreases needs@.len() - i,
    {
        let d = trim_str(needs[i].as_str());
        let ghost dv = d@;
        if d.as_str().unicode_len() > 0 {
            set.insert(d, true);
        }
        proof {
            assert forall|t: Seq<char>| #[trigger] lookup(set.entries@, t) is Some <==> (t.len() > 0 && exists|j: int|
                0 <= j < i + 1 && trim_seq(#[trigger] needs@[j]@) == t) by {
                if t == dv && t.len() > 0 {
                    assert(trim_seq(needs@[i as int]@) == t);
                }
                if exists|j: int| 0 <= j < i + 1 && trim_seq(#[trigger] needs@[j]@) == t {
                    let j = choose|j: int| 0 <= j < i + 1 && trim_seq(#[trigger] needs@[j]@) == t;
                    if j < i {
                    }
                }
            }
        }
        i = i + 1;
    }
    let r = set.keys();
    proof {
        assert forall|t: Seq<char>| required(needs@, t) <==> exists|j: int| 0 <= j < r@.len() && #[trigger] r@[j]@ == t by {
            lemma_lookup_some_iff(set.entries@, t);
            if exists|j: int| 0 <= j < r@.len() && #[trigger] r@[j]@ == t {
                let j = choose|j: int| 0 <= j < r@.len() && #[trigger] r@[j]@ == t;
                assert(set.entries@[j].0@ == t);
            }
            if lookup(set.entries@, t) is Some {
                let j = choose|j: int| 0 <= j < set.entries@.len() && (#[trigger] set.entries@[j]).0@ == t;
                assert(r@[j]@ == t);
            }
        }
        assert forall|a: int, b: int| 0 <= a < b < r@.len() implies key_lt(#[trigger] r@[a]@, #[trigger] r@[b]@) by {
            assert(r@[a]@ == set.entries@[a].0@);
            assert(r@[b]@ == set.entries@[b].0@);
        }
    }
    r
}

/// What the build does about one required dependency in one System folder.
#[derive(Clone, Debug)]
pub enum DepStep {
    /// The id is in no dependency registry: warn and go on.
    Unknown(String),
    /// Install dependency `dep` (its index among the wanted ids) into the
    /// folder, unless it is already satisfied there.
    Install { folder: String, dep: usize },
}

/// The step for dependency `j` (its OS versions, if known) in folder `f`.
pub open spec fn dep_step(f: String, wanted: Seq<String>, known: Seq<Option<Vec<String>>>, j: int) -> Seq<DepStep> {
    match known[j] {
        None => seq![DepStep::Unknown(wanted[j])],
        Some(os) => if exists|k: int| 0 <= k < os@.len() && contains_seq(f@, #[trigger] os@[k]@) {
            seq![DepStep::Install { folder: f, dep: j as usize }]
        } else {
            Seq::empty()
        },
    }
}

/// The steps in folder `f` for the first `j` wanted dependencies.
pub open spec fn folder_steps(f: String, wanted: Seq<String>, known: Seq<Option<Vec<String>>>, j: int) -> Seq<DepStep>
    decreases j,
{
    if j <= 0 { Seq::empty() } else { folder_steps(f, wanted, known, j - 1) + dep_step(f, wanted, known, j - 1) }
}

/// The steps for the first `i` System folders, each taking every wanted
/// dependency in turn.
pub open spec fn dep_plan(folders: Seq<String>, wanted: Seq<String>, known: Seq<Option<Vec<String>>>, i: int) -> Seq<DepStep>
    decreases i,
{
    if i <= 0 {
        Seq::empty()
    } else {
        dep_plan(folders, wanted, known, i - 1) + folder_steps(folders[i - 1], wanted, known, wanted.len() as int)
    }
}

/// The dependency steps of the build: for each System folder, each wanted
/// dependency id (with its OS versions where a registry knows it) is
/// either unknown, installs into the folder (one of its versions occurs in
/// the folder's name), or is passed over. No wanted id, no step.
pub fn dependency_plan(folders: &Vec<String>, wanted: &Vec<String>, known: &Vec<Option<Vec<String>>>) -> (r: Vec<DepStep>)
    requires
        wanted@.len() == known@.len(),
    ensures
        r@ == dep_plan(folders@, wanted@, known@, folders@.len() as int),
{
    let mut out: Vec<DepStep> = Vec::new();
    let mut i: usize = 0;
    while i < folders.len()
        invariant
            i <= folders@.len(),
            wanted@.len() == known@.len(),
            out@ == dep_plan(folders@, wanted@, known@, i as int),
        decreases folders@.len() - i,
    {
        let f = &folders[i];
        let ghost base = out@;
        let mut j: usize = 0;
        while j < wanted.len()
            invariant
                j <= wanted@.len(),
                wanted@.len() == known@.len(),
                i < folders@.len(),
                *f == folders@[i as int],
                base == dep_plan(folders@, wanted@, known@, i as int),
                out@ == base + folder_steps(*f, wanted@, known@, j as int),
            decreases wanted@.len() - j,
        {
            match &known[j] {
                None => {
                    out.push(DepStep::Unknown(wanted[j].clone()));
                },
                Some(os) => {
                    if dep_installs_on(os, f.as_str()) {
                        out.push(DepStep::Install { folder: f.clone(), dep: j });
                    }
                },
            }
            proof {
                assert(folder_steps(*f, wanted@, known@, j + 1) == folder_steps(*f, wanted@, known@, j as int) + dep_step(*f, wanted@, known@, j as int));
                assert(out@ =~= base + folder_steps(*f, wanted@, known@, j + 1));
            }
            j = j + 1;
        }
        i = i + 1;
    }
    out
}

/// The first of the candidate sources that was found.
pub open spec fn first_some(c: Seq<Option<String>>) -> Option<String>
    decreases c.len(),
{
    if c.len() == 0 {
        None
    } else if c[0] is Some {
        c[0]
    } else {
        first_some(c.drop_first())
    }
}

/// The art source a title uses: the first found, in precedence order (the
/// user's art folder, then the era art of the archive, then a download).
pub fn first_found(cands: &Vec<Option<String>>) -> (r: Option<String>)
    ensures
        r == first_some(cands@),
{
    let mut i: usize = 0;
    assert(cands@.skip(0) =~= cands@);
    while i < cands.len()
        invariant
            i <= cands@.len(),
            first_some(cands@) == first_some(cands@.skip(i as int)),
        decreases cands@.len() - i,
    {
        proof {
            assert(cands@.skip(i as int).drop_first() =~= cands@.skip(i + 1));
            assert(cands@.skip(i as int)[0] == cands@[i as int]);
        }
        match &cands[i] {
            Some(p) => {
                return Some(p.clone());
            },
            None => {},
        }
        i = i + 1;
    }
    None
}

/// The overlay field a baked art path takes: the path written as `{:?}`
/// writes it (a JSON string for any path of printable characters).
pub open spec fn art_field(rel: Option<String>) -> Option<Seq<char>> {
    match rel {
        Some(r) => Some(crate::text::debug_text(r@)),
        None => None,
    }
}

/// The art overlay record of one title, from the catalog paths of what was
/// baked for it (box art, screenshot, the app's icon): its `id`, `image`
/// (the box art, else the icon), `shot` and `icon`, each value written as
/// `{:?}` writes the text; none when nothing was baked.
pub fn art_overlay(id: &str, box_rel: Option<String>, shot_rel: Option<String>, icon_rel: Option<String>) -> (r: Option<
    crate::merge::Record,
>)
    ensures
        r is None <==> (box_rel is None && shot_rel is None && icon_rel is None),
        r matches Some(rec) ==> {
            &&& rec.id matches Some(x) && x@ == id@
            &&& rec.fields.wf()
            &&& forall|k: Seq<char>| #[trigger] crate::merge::field_text(rec.fields.entries@, k) == if k == "id"@ {
                Some(crate::text::debug_text(id@))
            } else if k == "image"@ {
                if box_rel is Some { art_field(box_rel) } else { art_field(icon_rel) }
            } else if k == "shot"@ {
                art_field(shot_rel)
            } else if k == "icon"@ {
                art_field(icon_rel)
            } else {
                None
            }
        },
{
    if box_rel.is_none() && shot_rel.is_none() && icon_rel.is_none() {
        return None;
    }
    proof {
        reveal_strlit("id");
        reveal_strlit("image");
        reveal_strlit("shot");
        reveal_strlit("icon");
        assert("image"@.len() == 5 && "id"@.len() == 2 && "shot"@.len() == 4 && "icon"@.len() == 4);
        assert("shot"@[0] != "icon"@[0]);
        assert("shot"@ != "icon"@);
    }
    let ghost bv = box_rel;
    let ghost sv = shot_rel;
    let ghost iv = icon_rel;
    let ghost img: Option<String> = if bv is Some { bv } else { iv };
    let mut fields: Keyed<String> = Keyed::new();
    let ik = "id".to_string();
    fields.insert(ik, crate::text::debug_str(id));
    proof {
        assert forall|k: Seq<char>| #[trigger] crate::merge::field_text(fields.entries@, k) == if k == "id"@ {
            Some(crate::text::debug_text(id@))
        } else {
            None
        } by {
            if k != "id"@ {
                assert(lookup(fields.entries@, k) == lookup(Seq::<(String, String)>::empty(), k));
            }
        }
    }
    let ghost f1 = fields.entries@;
    let image = match &box_rel {
        Some(b) => Some(b),
        None => icon_rel.as_ref(),
    };
    match image {
        Some(p) => {
            let v = crate::text::debug_str(p.as_str());
            let kk = "image".to_string();
            assert(kk@ == "image"@);
            fields.insert(kk, v);
            assert(lookup(fields.entries@, "image"@) == Some(v));
        },
        None => {},
    }
    proof {
        assert forall|k: Seq<char>| #[trigger] crate::merge::field_text(fields.entries@, k) == if k == "image"@ {
            art_field(img)
        } else {
            crate::merge::field_text(f1, k)
        } by {
            assert(crate::merge::field_text(f1, k) == crate::merge::field_text(f1, k));
            if k == "image"@ {
                assert("image"@.len() == 5 && "id"@.len() == 2);
                assert("image"@ != "id"@);
                assert(crate::merge::field_text(f1, "image"@) is None);
                assert(lookup(f1, "image"@) is None);
                if image is None {
                    assert(fields.entries@ == f1);
                    assert(img is None);
                } else {
                    assert(lookup(fields.entries@, "image"@) is Some);
                }
            }
            if k != "image"@ {
                assert(lookup(fields.entries@, k) == lookup(f1, k));
            }
        }
    }
    let ghost f2 = fields.entries@;
    match &shot_rel {
        Some(p) => {
            let v = crate::text::debug_str(p.as_str());
            let kk = "shot".to_string();
            assert(kk@ == "shot"@);
            fields.insert(kk, v);
            assert(lookup(fields.entries@, "shot"@) == Some(v));
        },
        None => {},
    }
    proof {
        assert forall|k: Seq<char>| #[trigger] crate::merge::field_text(fields.entries@, k) == if k == "shot"@ {
            art_field(sv)
        } else {
            crate::merge::field_text(f2, k)
        } by {
            assert(crate::merge::field_text(f2, k) == crate::merge::field_text(f2, k));
            if k != "shot"@ {
                assert(lookup(fields.entries@, k) == lookup(f2, k));
            }
        }
    }
    let ghost f3 = fields.entries@;
    match &icon_rel {
        Some(p) => {
            let v = crate::text::debug_str(p.as_str());
            let kk = "icon".to_string();
            assert(kk@ == "icon"@);
            fields.insert(kk, v);
            assert(lookup(fields.entries@, "icon"@) == Some(v));
        },
        None => {},
    }
    proof {
        assert forall|k: Seq<char>| #[trigger] crate::merge::field_text(fields.entries@, k) == if k == "icon"@ {
            art_field(iv)
        } else {
            crate::merge::field_text(f3, k)
        } by {
            assert(crate::merge::field_text(f3, k) == crate::merge::field_text(f3, k));
            if k == "icon"@ {
                assert(crate::merge::field_text(f3, k) == crate::merge::field_text(f2, k));
                assert(crate::merge::field_text(f2, k) == crate::merge::field_text(f1, k));
                assert(crate::merge::field_text(f1, k) is None);
                assert(lookup(f3, k) is None);
            }
            if k != "icon"@ {
                assert(lookup(fields.entries@, k) == lookup(f3, k));
            }
        }
        assert forall|k: Seq<char>| #[trigger] crate::merge::field_text(fields.entries@, k) == if k == "id"@ {
            Some(crate::text::debug_text(id@))
        } else if k == "image"@ {
            if bv is Some { art_field(bv) } else { art_field(iv) }
        } else if k == "shot"@ {
            art_field(sv)
        } else if k == "icon"@ {
            art_field(iv)
        } else {
            None
        } by {
            assert(crate::merge::field_text(f1, k) == crate::merge::field_text(f1, k));
            assert(crate::merge::field_text(f2, k) == crate::merge::field_text(f2, k));
            assert(crate::merge::field_text(f3, k) == crate::merge::field_text(f3, k));
        }
    }
    Some(crate::merge::Record { id: Some(id.to_string()), fields })
}

// ---- the build's course ------------------------------------------------------

/// What a build was asked for, as far as it decides which steps run.
#[derive(Clone, Copy, Debug)]
pub struct BuildPlan {
    /// A named collection with per-title overrides.
    pub collection_overrides: bool,
    /// A selection (a collection's ids or an inline one) to harvest.
    pub selection: bool,
    /// Explicit harvest sources.
    pub explicit_harvest: bool,
    /// A Macintosh Garden archive to enrich from.
    pub mg_archive: bool,
    /// LaunchBox metadata to enrich from.
    pub metadata: bool,
    /// The collection recommends titles.
    pub recommended: bool,
    pub install_all_systems: bool,
    pub finder_replace: bool,
    pub startup_sound: bool,
    pub shutdown_sound: bool,
}

/// One step of the build.
#[derive(Clone, Copy, Debug, PartialEq, Eq, Structural)]
pub enum BuildAction {
    MergeCollectionOverrides,
    CopyBase,
    Preflight,
    GrowDisk,
    HarvestSelection,
    HarvestExplicit,
    MacGarden,
    Enrich,
    MergeCompatibility,
    FilterPresent,
    BakeArt,
    TagRecommended,
    PagedCatalog,
    SingleCatalog,
    InstallAllSystems,
    InstallDependencies,
    RebuildDesktop,
    InstallAsFinder,
    InstallStartupItem,
    StripControlPanels,
    MakeSoundsDir,
    BakeStartupSound,
    BakeShutdownSound,
    RightSize,
}

/// `a` when `c` holds, else nothing.
pub open spec fn when(c: bool, a: BuildAction) -> Seq<BuildAction> {
    if c { seq![a] } else { Seq::empty() }
}

/// The steps up to the enrichers: the collection's overrides, the base
/// copy, the preflight estimate and the grow, the harvests, the enrichers.
pub open spec fn steps_prepare(p: BuildPlan) -> Seq<BuildAction> {
    when(p.collection_overrides, BuildAction::MergeCollectionOverrides)
        + seq![BuildAction::CopyBase, BuildAction::Preflight, BuildAction::GrowDisk]
        + when(p.selection, BuildAction::HarvestSelection)
        + when(p.explicit_harvest, BuildAction::HarvestExplicit)
        + when(p.mg_archive, BuildAction::MacGarden)
        + when(p.metadata, BuildAction::Enrich)
}

/// The steps from the compatibility overlay to the catalogs.
pub open spec fn steps_catalog(p: BuildPlan) -> Seq<BuildAction> {
    seq![BuildAction::MergeCompatibility, BuildAction::FilterPresent, BuildAction::BakeArt]
        + when(p.recommended, BuildAction::TagRecommended)
        + seq![BuildAction::PagedCatalog, BuildAction::SingleCatalog]
}

/// The launcher's steps: into every System with its dependencies and a
/// Desktop rebuild, or as the Finder, or as a startup item with the
/// quick-launch panels stripped.
pub open spec fn steps_launcher(p: BuildPlan) -> Seq<BuildAction> {
    if p.install_all_systems {
        seq![BuildAction::InstallAllSystems, BuildAction::InstallDependencies, BuildAction::RebuildDesktop]
    } else if p.finder_replace {
        seq![BuildAction::InstallAsFinder]
    } else {
        seq![BuildAction::InstallStartupItem, BuildAction::StripControlPanels]
    }
}

/// The chimes and, last, the right-sizing.
pub open spec fn steps_finish(p: BuildPlan) -> Seq<BuildAction> {
    when(p.startup_sound || p.shutdown_sound, BuildAction::MakeSoundsDir)
        + when(p.startup_sound, BuildAction::BakeStartupSound)
        + when(p.shutdown_sound, BuildAction::BakeShutdownSound)
        + seq![BuildAction::RightSize]
}

/// The steps of a build, in order.
pub open spec fn build_actions(p: BuildPlan) -> Seq<BuildAction> {
    steps_prepare(p) + steps_catalog(p) + steps_launcher(p) + steps_finish(p)
}

fn push_when(v: &mut Vec<BuildAction>, c: bool, a: BuildAction)
    ensures
        final(v)@ == old(v)@ + when(c, a),
{
    if c {
        v.push(a);
    }
    proof {
        if !c {
            assert(old(v)@ + when(c, a) =~= old(v)@);
        }
    }
}

fn push_start(v: &mut Vec<BuildAction>, p: &BuildPlan)
    ensures
        final(v)@ == old(v)@ + when(p.collection_overrides, BuildAction::MergeCollectionOverrides) + seq![
            BuildAction::CopyBase,
            BuildAction::Preflight,
            BuildAction::GrowDisk,
        ],
{
    push_when(v, p.collection_overrides, BuildAction::MergeCollectionOverrides);
    let ghost v1 = v@;
    v.push(BuildAction::CopyBase);
    v.push(BuildAction::Preflight);
    v.push(BuildAction::GrowDisk);
    assert(v@ =~= v1 + seq![BuildAction::CopyBase, BuildAction::Preflight, BuildAction::GrowDisk]);
}

fn push_prepare(v: &mut Vec<BuildAction>, p: &BuildPlan)
    ensures
        final(v)@ == old(v)@ + steps_prepare(*p),
{
    let ghost v0 = v@;
    push_start(v, p);
    let ghost a = v@;
    push_when(v, p.selection, BuildAction::HarvestSelection);
    let ghost b = v@;
    push_when(v, p.explicit_harvest, BuildAction::HarvestExplicit);
    let ghost c = v@;
    push_when(v, p.mg_archive, BuildAction::MacGarden);
    let ghost d = v@;
    push_when(v, p.metadata, BuildAction::Enrich);
    assert(v@ =~= v0 + steps_prepare(*p));
}

fn push_catalog(v: &mut Vec<BuildAction>, p: &BuildPlan)
    ensures
        final(v)@ == old(v)@ + steps_catalog(*p),
{
    let ghost v0 = v@;
    v.push(BuildAction::MergeCompatibility);
    v.push(BuildAction::FilterPresent);
    v.push(BuildAction::BakeArt);
    let ghost v1 = v@;
    push_when(v, p.recommended, BuildAction::TagRecommended);
    v.push(BuildAction::PagedCatalog);
    v.push(BuildAction::SingleCatalog);
    assert(v@ =~= v0 + steps_catalog(*p));
}

fn push_launcher(v: &mut Vec<BuildAction>, p: &BuildPlan)
    ensures
        final(v)@ == old(v)@ + steps_launcher(*p),
{
    let ghost v0 = v@;
    if p.install_all_systems {
        v.push(BuildAction::InstallAllSystems);
        v.push(BuildAction::InstallDependencies);
        v.push(BuildAction::RebuildDesktop);
    } else if p.finder_replace {
        v.push(BuildAction::InstallAsFinder);
    } else {
        v.push(BuildAction::InstallStartupItem);
        v.push(BuildAction::StripControlPanels);
    }
    assert(v@ =~= v0 + steps_launcher(*p));
}

fn push_finish(v: &mut Vec<BuildAction>, p: &BuildPlan)
    ensures
        final(v)@ == old(v)@ + steps_finish(*p),
{
    let ghost v0 = v@;
    push_when(v, p.startup_sound || p.shutdown_sound, BuildAction::MakeSoundsDir);
    push_when(v, p.startup_sound, BuildAction::BakeStartupSound);
    push_when(v, p.shutdown_sound, BuildAction::BakeShutdownSound);
    v.push(BuildAction::RightSize);
    assert(v@ =~= v0 + steps_finish(*p));
}

/// The steps of a build, in order: the collection's overrides, the base
/// copy, the preflight estimate and the grow, the harvests, the enrichers,
/// the compatibility overlay, keeping the titles that landed, the art, the
/// catalogs (the paged one, then the single-file one), the launcher, the
/// chimes, and last the right-sizing.
pub fn build_steps(p: &BuildPlan) -> (r: Vec<BuildAction>)
    ensures
        r@ == build_actions(*p),
{
    let mut v: Vec<BuildAction> = Vec::new();
    push_prepare(&mut v, p);
    push_catalog(&mut v, p);
    push_launcher(&mut v, p);
    push_finish(&mut v, p);
    assert(v@ =~= build_actions(*p));
    v
}

/// What the build does next.
#[derive(Clone, Copy, Debug, PartialEq, Eq, Structural)]
pub enum BuildNext {
    /// Run this step (the `k`-th).
    Run(usize, BuildAction),
    /// Every step ran: the image is built.
    Finished,
    /// A step failed: the build stops with its error.
    Aborted,
}

/// Only the single-file catalog may fail without stopping the build (an
/// old launcher's catalog, over the item limit on a large library).
pub open spec fn fail_soft(a: BuildAction) -> bool {
    a == BuildAction::SingleCatalog
}

/// The build's next move once `done` steps have run, the last of them with
/// outcome `ok` (`ok` is not read before the first step): a failed step
/// stops the build unless it may fail softly; else the next step runs, or
/// the build is finished.
pub open spec fn build_next_spec(steps: Seq<BuildAction>, done: int, ok: bool) -> BuildNext {
    if 0 < done <= steps.len() && !ok && !fail_soft(steps[done - 1]) {
        BuildNext::Aborted
    } else if 0 <= done < steps.len() {
        BuildNext::Run(done as usize, steps[done])
    } else {
        BuildNext::Finished
    }
}

/// One move of the build: given its steps and how many have run (the last
/// with outcome `ok`), what to do next. The caller runs the step and comes
/// back with its outcome.
pub fn build_next(steps: &Vec<BuildAction>, done: usize, ok: bool) -> (r: BuildNext)
    ensures
        r == build_next_spec(steps@, done as int, ok),
{
    if 0 < done && done <= steps.len() && !ok && steps[done - 1] != BuildAction::SingleCatalog {
        BuildNext::Aborted
    } else if done < steps.len() {
        BuildNext::Run(done, steps[done])
    } else {
        BuildNext::Finished
    }
}

/// The System folder whose quick-launch control panels are stripped: the
/// parent of the startup-items folder (the text before its last `/`), else
/// `/System Folder`.
pub open spec fn panels_folder(startup_items: Seq<char>) -> Seq<char> {
    let i = crate::rbcli::last_slash(startup_items, startup_items.len() as int);
    if i > 0 { startup_items.take(i) } else { "/System Folder"@ }
}

/// The System folder whose quick-launch control panels are stripped.
pub fn panels_folder_of(startup_items: &str) -> (r: String)
    ensures
        r@ == panels_folder(startup_items@),
{
    let cs = chars_of(startup_items);
    let mut k: usize = cs.len();
    while k > 0 && cs[k - 1] != '/'
        invariant
            k <= cs@.len(),
            cs@ == startup_items@,
            crate::rbcli::last_slash(cs@, cs@.len() as int) == crate::rbcli::last_slash(cs@, k as int),
        decreases k,
    {
        k = k - 1;
    }
    if k > 1 {
        crate::text::string_from(&cs.as_slice()[0..k - 1])
    } else {
        "/System Folder".to_string()
    }
}

// ---- adding titles to a disk ------------------------------------------------------

/// Why titles cannot be added to a disk.
#[derive(Clone, Copy, Debug, PartialEq, Eq, Structural)]
pub enum AddError {
    /// The build names no selection.
    NoSelection,
    /// The selection resolves to no title of the library.
    NothingSelected,
}

impl AddError {
    /// The error's text.
    pub fn message(&self) -> (r: String)
        ensures
            r@ == match *self {
                AddError::NoSelection => "no selection: pick the titles to add"@,
                AddError::NothingSelected => "no titles selected to add"@,
            },
    {
        match self {
            AddError::NoSelection => String::from_str("no selection: pick the titles to add"),
            AddError::NothingSelected => String::from_str("no titles selected to add"),
        }
    }
}

/// The titles an add puts on a disk: the ids its selection resolved to; an
/// error when the build has no selection, or when it resolved to none.
pub fn selected_ids(resolved: &Vec<String>, has_selection: bool) -> (r: Result<Vec<String>, AddError>)
    ensures
        !has_selection ==> r == Err::<Vec<String>, AddError>(AddError::NoSelection),
        has_selection && resolved@.len() == 0 ==> r == Err::<Vec<String>, AddError>(AddError::NothingSelected),
        r is Err <==> (!has_selection || resolved@.len() == 0),
        r matches Ok(v) ==> crate::text::views(v@) == crate::text::views(resolved@),
{
    if !has_selection {
        return Err(AddError::NoSelection);
    }
    if resolved.len() == 0 {
        return Err(AddError::NothingSelected);
    }
    let mut v: Vec<String> = Vec::new();
    let mut k: usize = 0;
    while k < resolved.len()
        invariant
            k <= resolved@.len(),
            v@.len() == k,
            forall|j: int| 0 <= j < k ==> (#[trigger] v@[j])@ == resolved@[j]@,
        decreases resolved@.len() - k,
    {
        v.push(resolved[k].clone());
        k = k + 1;
    }
    assert(crate::text::views(v@) =~= crate::text::views(resolved@));
    Ok(v)
}

// ---- keeping the titles that landed -----------------------------------------------

/// Where a dataset record's `app` lives on the volume: under `/MacAtrium/`,
/// its leading `/`s dropped.
pub open spec fn app_volume_path(app: Seq<char>) -> Seq<char> {
    "/MacAtrium/"@ + crate::library::lstrip_slashes(app)
}

/// The path to probe for a record's `app` on the volume.
pub fn app_probe_path(app: &str) -> (r: String)
    ensures
        r@ == app_volume_path(app@),
{
    let cs = chars_of(app);
    let mut i: usize = 0;
    assert(cs@.skip(0) =~= cs@);
    while i < cs.len() && cs[i] == '/'
        invariant
            i <= cs@.len(),
            cs@ == app@,
            crate::library::lstrip_slashes(app@) == crate::library::lstrip_slashes(cs@.skip(i as int)),
        decreases cs@.len() - i,
    {
        proof {
            assert(cs@.skip(i as int).drop_first() =~= cs@.skip(i + 1));
        }
        i = i + 1;
    }
    proof {
        if i < cs@.len() {
            assert(cs@.skip(i as int)[0] != '/');
        }
    }
    let mut r = String::from_str("/MacAtrium/");
    proof {
        reveal_strlit("/MacAtrium/");
    }
    let rest = crate::text::string_from(&cs.as_slice()[i..cs.len()]);
    proof {
        assert(cs@.subrange(i as int, cs@.len() as int) =~= cs@.skip(i as int));
    }
    crate::text::append(&mut r, rest.as_str());
    r
}

/// A dataset line as the present-apps filter reads it: its text, its `app`
/// when that is a non-empty string, and its `name` when a string.
pub struct AppLine {
    pub text: String,
    pub app: Option<String>,
    pub name: Option<String>,
}

/// The filter after the first `i` lines: the texts kept, the names of the
/// titles dropped, and the apps kept so far.
pub open spec fn present_upto(ls: Seq<AppLine>, there: Seq<bool>, i: int) -> (Seq<Seq<char>>, Seq<Seq<char>>, Seq<Seq<char>>)
    decreases i,
{
    if i <= 0 {
        (Seq::empty(), Seq::empty(), Seq::empty())
    } else {
        let p = present_upto(ls, there, i - 1);
        let l = ls[i - 1];
        match l.app {
            None => (p.0.push(l.text@), p.1, p.2),
            Some(a) => if !there[i - 1] {
                (p.0, p.1.push(match l.name { Some(n) => n@, None => a@ }), p.2)
            } else if p.2.contains(a@) {
                p
            } else {
                (p.0.push(l.text@), p.1, p.2.push(a@))
            },
        }
    }
}

/// Keep the dataset lines whose title is on the volume: a record whose
/// `app` is absent there (`there[i]` says whether line `i`'s app was found)
/// is dropped and named; of records sharing an install path only the first
/// is kept; comment, unparseable and app-less lines stay. Gives the kept
/// line texts and the dropped titles' names (the app path where a title has
/// no name).
pub fn present_apps(ls: &Vec<AppLine>, there: &Vec<bool>) -> (r: (Vec<String>, Vec<String>))
    requires
        ls@.len() == there@.len(),
    ensures
        crate::text::views(r.0@) == present_upto(ls@, there@, ls@.len() as int).0,
        crate::text::views(r.1@) == present_upto(ls@, there@, ls@.len() as int).1,
{
    let mut kept: Vec<String> = Vec::new();
    let mut dropped: Vec<String> = Vec::new();
    let mut seen: Vec<String> = Vec::new();
    let mut i: usize = 0;
    while i < ls.len()
        invariant
            i <= ls@.len(),
            ls@.len() == there@.len(),
            crate::text::views(kept@) == present_upto(ls@, there@, i as int).0,
            crate::text::views(dropped@) == present_upto(ls@, there@, i as int).1,
            crate::text::views(seen@) == present_upto(ls@, there@, i as int).2,
        decreases ls@.len() - i,
    {
        let l = &ls[i];
        let ghost k0 = kept@;
        let ghost d0 = dropped@;
        let ghost s0 = seen@;
        match &l.app {
            None => {
                kept.push(l.text.clone());
            },
            Some(a) => {
                if !there[i] {
                    let n = match &l.name {
                        Some(n) => n.clone(),
                        None => a.clone(),
                    };
                    dropped.push(n);
                } else {
                    let mut dup = false;
                    let mut j: usize = 0;
                    while j < seen.len()
                        invariant
                            j <= seen@.len(),
                            dup == exists|q: int| 0 <= q < j && (#[trigger] seen@[q])@ == a@,
                        decreases seen@.len() - j,
                    {
                        if crate::text::same_str(seen[j].as_str(), a.as_str()) {
                            dup = true;
                        }
                        j = j + 1;
                    }
                    proof {
                        let sv = crate::text::views(s0);
                        if dup {
                            let q = choose|q: int| 0 <= q < seen@.len() && (#[trigger] seen@[q])@ == a@;
                            assert(sv[q] == a@);
                        }
                        if sv.contains(a@) {
                            let q = choose|q: int| 0 <= q < sv.len() && sv[q] == a@;
                            assert(seen@[q]@ == a@);
                        }
                    }
                    if !dup {
                        kept.push(l.text.clone());
                        seen.push(a.clone());
                    }
                }
            },
        }
        proof {
            assert(crate::text::views(kept@) =~= present_upto(ls@, there@, i + 1).0);
            assert(crate::text::views(dropped@) =~= present_upto(ls@, there@, i + 1).1);
            assert(crate::text::views(seen@) =~= present_upto(ls@, there@, i + 1).2);
        }
        i = i + 1;
    }
    (kept, dropped)
}

// ---- tagging a collection's recommended titles --------------------------------

/// A line of the staged category database: its text, the JSON object it
/// holds (if any), and the JSON texts of the items of its `categories` when
/// that is a list.
pub struct CatLine {
    pub text: String,
    pub rec: Option<crate::merge::Record>,
    pub cats: Option<Vec<String>>,
}

/// The wanted ids hold `id`.
pub open spec fn wanted(ids: Seq<String>, id: Seq<char>) -> bool {
    exists|j: int| 0 <= j < ids.len() && (#[trigger] ids[j])@ == id
}

/// Line `l` is a record of a wanted id.
pub open spec fn tags(l: CatLine, ids: Seq<String>) -> bool {
    l.rec matches Some(r) && crate::merge::id_text(r) is Some && wanted(ids, crate::merge::id_text(r)->0)
}

/// The `categories` a wanted record ends with: its list with `Recommended`
/// put first unless there, or just `Recommended` when it has no list.
pub open spec fn tagged_cats(cats: Option<Vec<String>>) -> Option<Seq<char>> {
    match cats {
        Some(items) => if crate::text::views(items@).contains("\"Recommended\""@) {
            None
        } else {
            Some("[\"Recommended\""@ + (if items@.len() == 0 { Seq::empty() } else { seq![','] + crate::text::join_with(
                crate::text::views(items@),
                ","@,
            ) }) + "]"@)
        },
        None => Some("[\"Recommended\"]"@),
    }
}

/// A category line after tagging: a record with an id is written back, a
/// wanted one with `Recommended` first in its categories (once); every
/// other line stays as its text.
pub open spec fn tag_line(l: CatLine, o: crate::merge::Line, ids: Seq<String>) -> bool {
    match l.rec {
        Some(r) => if crate::merge::id_text(r) is Some {
            o matches crate::merge::Line::Rec(x) && x.id == r.id && x.fields.wf() && forall|k: Seq<char>|
                #[trigger] crate::merge::field_text(x.fields.entries@, k) == if k == "categories"@ && wanted(
                    ids,
                    crate::merge::id_text(r)->0,
                ) && tagged_cats(l.cats) is Some {
                    tagged_cats(l.cats)
                } else {
                    crate::merge::field_text(r.fields.entries@, k)
                }
        } else {
            o matches crate::merge::Line::Raw(t) && t@ == l.text@
        },
        None => o matches crate::merge::Line::Raw(t) && t@ == l.text@,
    }
}

/// Some line tags `id`.
pub open spec fn tagged_in(ls: Seq<CatLine>, ids: Seq<String>, id: Seq<char>) -> bool {
    exists|i: int| 0 <= i < ls.len() && tags(#[trigger] ls[i], ids) && crate::merge::id_text(ls[i].rec->0) == Some(id)
}

/// The records appended for the first `k` wanted ids no line has, in ids
/// order.
pub open spec fn rec_tail(ls: Seq<CatLine>, ids: Seq<String>, k: int) -> Seq<Seq<char>>
    decreases k,
{
    if k <= 0 {
        Seq::empty()
    } else {
        let p = rec_tail(ls, ids, k - 1);
        if tagged_in(ls, ids, ids[k - 1]@) {
            p
        } else {
            p.push("{\"id\":"@ + crate::text::debug_text(ids[k - 1]@) + ",\"categories\":[\"Recommended\"]}"@)
        }
    }
}

fn wanted_exec(ids: &Vec<String>, id: &str) -> (r: bool)
    ensures
        r == wanted(ids@, id@),
{
    let mut j: usize = 0;
    while j < ids.len()
        invariant
            j <= ids@.len(),
            forall|q: int| 0 <= q < j ==> (#[trigger] ids@[q])@ != id@,
        decreases ids@.len() - j,
    {
        if crate::text::same_str(ids[j].as_str(), id) {
            return true;
        }
        j = j + 1;
    }
    false
}

fn tagged_cats_exec(cats: &Option<Vec<String>>) -> (r: Option<String>)
    ensures
        match tagged_cats(*cats) {
            Some(t) => r matches Some(x) && x@ == t,
            None => r is None,
        },
{
    proof {
        reveal_strlit("\"Recommended\"");
        reveal_strlit("[\"Recommended\"");
        reveal_strlit("[\"Recommended\"]");
        reveal_strlit("]");
        reveal_strlit(",");
    }
    match cats {
        Some(items) => {
            if wanted_exec(items, "\"Recommended\"") {
                proof {
                    let q = choose|q: int| 0 <= q < items@.len() && (#[trigger] items@[q])@ == "\"Recommended\""@;
                    assert(crate::text::views(items@)[q] == "\"Recommended\""@);
                }
                None
            } else {
                proof {
                    if crate::text::views(items@).contains("\"Recommended\""@) {
                        let q = choose|q: int| 0 <= q < crate::text::views(items@).len() && crate::text::views(items@)[q] == "\"Recommended\""@;
                        assert(items@[q]@ == "\"Recommended\""@);
                    }
                }
                let mut t = String::from_str("[\"Recommended\"");
                if items.len() > 0 {
                    crate::text::push_char(&mut t, ',');
                    let j = crate::text::join_strings(items, ",");
                    crate::text::append(&mut t, j.as_str());
                }
                crate::text::append(&mut t, "]");
                Some(t)
            }
        },
        None => Some(String::from_str("[\"Recommended\"]")),
    }
}

/// Give each wanted id `Recommended` in the staged category database: a
/// record of a wanted id gets it first in its `categories` (once; a record
/// without a list gets just it); records with an id are written back, other
/// lines kept as they are; each wanted id no record has is appended, in ids
/// order, as a record of just `Recommended`.
pub fn tag_recommended(ls: &Vec<CatLine>, ids: &Vec<String>) -> (r: Vec<crate::merge::Line>)
    requires
        forall|i: int| 0 <= i < ls@.len() ==> ((#[trigger] ls@[i]).rec matches Some(x) ==> x.fields.wf()),
    ensures
        r@.len() == ls@.len() + rec_tail(ls@, ids@, ids@.len() as int).len(),
        forall|i: int| 0 <= i < ls@.len() ==> tag_line(#[trigger] ls@[i], r@[i], ids@),
        forall|j: int| 0 <= j < rec_tail(ls@, ids@, ids@.len() as int).len() ==> crate::harvest::raw_is(
            #[trigger] r@[ls@.len() + j],
            rec_tail(ls@, ids@, ids@.len() as int)[j],
        ),
{
    proof {
        reveal_strlit("categories");
    }
    let mut out: Vec<crate::merge::Line> = Vec::new();
    let mut i: usize = 0;
    while i < ls.len()
        invariant
            i <= ls@.len(),
            out@.len() == i,
            forall|q: int| 0 <= q < ls@.len() ==> ((#[trigger] ls@[q]).rec matches Some(x) ==> x.fields.wf()),
            forall|q: int| 0 <= q < i ==> tag_line(#[trigger] ls@[q], out@[q], ids@),
        decreases ls@.len() - i,
    {
        let l = &ls[i];
        let line = match &l.rec {
            Some(rec) => match &rec.id {
                Some(id) => {
                    let mut f = crate::merge::copy_fields(&rec.fields);
                    if wanted_exec(ids, id.as_str()) {
                        match tagged_cats_exec(&l.cats) {
                            Some(t) => {
                                let ghost f0 = f.entries@;
                                f.insert("categories".to_string(), t);
                                proof {
                                    assert forall|k: Seq<char>| k != "categories"@ implies crate::merge::field_text(f.entries@, k)
                                        == crate::merge::field_text(f0, k) by {
                                        assert(crate::keyed::lookup(f.entries@, k) == crate::keyed::lookup(f0, k));
                                    }
                                }
                            },
                            None => {},
                        }
                    }
                    crate::merge::Line::Rec(crate::merge::Record { id: Some(id.clone()), fields: f })
                },
                None => crate::merge::Line::Raw(l.text.clone()),
            },
            None => crate::merge::Line::Raw(l.text.clone()),
        };
        let ghost before = out@;
        out.push(line);
        proof {
            assert forall|q: int| 0 <= q < i + 1 implies tag_line(#[trigger] ls@[q], out@[q], ids@) by {
                if q < i {
                    assert(out@[q] == before[q]);
                }
            }
        }
        i = i + 1;
    }
    let mut k: usize = 0;
    while k < ids.len()
        invariant
            k <= ids@.len(),
            out@.len() == ls@.len() + rec_tail(ls@, ids@, k as int).len(),
            forall|q: int| 0 <= q < ls@.len() ==> tag_line(#[trigger] ls@[q], out@[q], ids@),
            forall|j: int| 0 <= j < rec_tail(ls@, ids@, k as int).len() ==> crate::harvest::raw_is(
                #[trigger] out@[ls@.len() + j],
                rec_tail(ls@, ids@, k as int)[j],
            ),
        decreases ids@.len() - k,
    {
        let ghost before = out@;
        let mut found = false;
        let mut i: usize = 0;
        while i < ls.len()
            invariant
                i <= ls@.len(),
                k < ids@.len(),
                found == exists|q: int| 0 <= q < i && tags(#[trigger] ls@[q], ids@) && crate::merge::id_text(ls@[q].rec->0) == Some(ids@[k as int]@),
            decreases ls@.len() - i,
        {
            match &ls[i].rec {
                Some(rec) => match &rec.id {
                    Some(id) => {
                        if crate::text::same_str(id.as_str(), ids[k].as_str()) && wanted_exec(ids, id.as_str()) {
                            found = true;
                        }
                    },
                    None => {},
                },
                None => {},
            }
            i = i + 1;
        }
        if !found {
            let mut t = String::from_str("{\"id\":");
            let d = crate::text::debug_str(ids[k].as_str());
            crate::text::append(&mut t, d.as_str());
            crate::text::append(&mut t, ",\"categories\":[\"Recommended\"]}");
            proof {
                reveal_strlit("{\"id\":");
                reveal_strlit(",\"categories\":[\"Recommended\"]}");
            }
            out.push(crate::merge::Line::Raw(t));
        }
        proof {
            assert forall|q: int| 0 <= q < ls@.len() implies tag_line(#[trigger] ls@[q], out@[q], ids@) by {
                assert(out@[q] == before[q]);
            }
            assert forall|j: int| 0 <= j < rec_tail(ls@, ids@, k + 1).len() implies crate::harvest::raw_is(
                #[trigger] out@[ls@.len() + j],
                rec_tail(ls@, ids@, k + 1)[j],
            ) by {
                if j < rec_tail(ls@, ids@, k as int).len() {
                    assert(out@[ls@.len() + j] == before[ls@.len() + j]);
                }
            }
        }
        k = k + 1;
    }
    out
}

} // verus!
