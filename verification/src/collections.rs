//! Where named game lists (collections) are looked for: the user's own
//! directory first, then the pre-Documents one, then every bundled location.
//! Probing the file system is the caller's part; it hands in what it found.

use crate::mg::{join_path, path_join};
use crate::text::append;
use vstd::prelude::*;

verus! {

/// The candidate bundled directories for an executable in `exe_dir`.
pub open spec fn bundled_candidates_spec(exe_dir: Option<&str>) -> Seq<Seq<char>> {
    match exe_dir {
        Some(d) => seq![
            path_join(d@, "collections"@),
            path_join(path_join(path_join(d@, ".."@), "Resources"@), "collections"@),
            "data/collections"@,
        ],
        None => seq!["data/collections"@],
    }
}

/// The bundled-collection search list for an executable in `exe_dir`:
/// `collections` beside it, the `.app` bundle's `../Resources/collections`,
/// then the checkout's `data/collections`, last.
pub fn bundled_candidates(exe_dir: Option<&str>) -> (r: Vec<String>)
    ensures
        r@.map_values(|s: String| s@) == bundled_candidates_spec(exe_dir),
{
    let mut dirs: Vec<String> = Vec::new();
    match exe_dir {
        Some(dir) => {
            dirs.push(join_path(dir, "collections"));
            let up = join_path(dir, "..");
            let res = join_path(up.as_str(), "Resources");
            dirs.push(join_path(res.as_str(), "collections"));
        },
        None => {},
    }
    dirs.push("data/collections".to_owned());
    proof {
        let v = dirs@.map_values(|s: String| s@);
        match exe_dir {
            Some(d) => {
                assert(v =~= seq![
                    path_join(d@, "collections"@),
                    path_join(path_join(path_join(d@, ".."@), "Resources"@), "collections"@),
                    "data/collections"@,
                ]);
            },
            None => {
                assert(v =~= seq!["data/collections"@]);
            },
        }
    }
    dirs
}

/// The bundled-collection search list: the `MACATRIUM_COLLECTIONS`
/// override alone when it is set (it wins outright, unprobed), else the
/// candidates beside the executable in `exe_dir` (see
/// `bundled_candidates`), of which the caller keeps those that exist.
pub fn bundled_search(env_dir: Option<&str>, exe_dir: Option<&str>) -> (r: Vec<String>)
    ensures
        match env_dir {
            Some(p) => r@.len() == 1 && r@[0]@ == p@,
            None => r@.map_values(|s: String| s@) == bundled_candidates_spec(exe_dir),
        },
{
    match env_dir {
        Some(p) => {
            let mut v: Vec<String> = Vec::new();
            v.push(p.to_string());
            v
        },
        None => bundled_candidates(exe_dir),
    }
}

/// The primary bundled directory: the first of `dirs` (the existing bundled
/// directories, in priority order), else `data/collections`.
pub fn bundled_dir(dirs: &Vec<String>) -> (r: String)
    ensures
        r@ == if dirs@.len() > 0 { dirs@[0]@ } else { "data/collections"@ },
{
    if dirs.len() > 0 {
        dirs[0].clone()
    } else {
        "data/collections".to_owned()
    }
}

/// Where the user's own collections are saved: the configured
/// `collections_dir`, else `<user_root>/Collections`.
pub fn user_dir(collections_dir: Option<&str>, user_root: &str) -> (r: Option<String>)
    ensures
        r matches Some(d) && d@ == match collections_dir {
            Some(c) => c@,
            None => path_join(user_root@, "Collections"@),
        },
{
    match collections_dir {
        Some(c) => Some(c.to_owned()),
        None => Some(join_path(user_root, "Collections")),
    }
}

/// The pre-Documents user directory, `<home>/.macatrium/collections`, still
/// searched for reads.
pub fn legacy_user_dir(home: Option<&str>) -> (r: Option<String>)
    ensures
        match home {
            Some(h) => r matches Some(d) && d@ == path_join(path_join(h@, ".macatrium"@), "collections"@),
            None => r is None,
        },
{
    match home {
        Some(h) => {
            let m = join_path(h, ".macatrium");
            Some(join_path(m.as_str(), "collections"))
        },
        None => None,
    }
}

/// The directories a collection is looked for in: the user directory first
/// (so a user file wins over a shipped one), then the legacy one, then the
/// bundled ones in their order.
pub fn search_dirs(user: Option<String>, legacy: Option<String>, bundled: Vec<String>) -> (r: Vec<String>)
    ensures
        r@ == (match user { Some(u) => seq![u], None => Seq::empty() }) + (match legacy {
            Some(l) => seq![l],
            None => Seq::empty(),
        }) + bundled@,
{
    let mut r: Vec<String> = Vec::new();
    match user {
        Some(u) => r.push(u),
        None => {},
    }
    match legacy {
        Some(l) => r.push(l),
        None => {},
    }
    let mut b = bundled;
    r.append(&mut b);
    r
}

/// `<dir>/<name>.json`.
pub fn collection_file(dir: &str, name: &str) -> (r: String)
    ensures
        r@ == path_join(dir@, name@ + ".json"@),
{
    let mut f = name.to_owned();
    append(&mut f, ".json");
    join_path(dir, f.as_str())
}

/// The file backing a named collection: `<dir>/<name>.json` in the first of
/// `dirs` where `exists` says that file is there (`exists[i]` is the probe
/// of `dirs[i]`), if any.
pub fn find_path(name: &str, dirs: &Vec<String>, exists: &Vec<bool>) -> (r: Option<String>)
    requires
        exists@.len() == dirs@.len(),
    ensures
        match r {
            Some(p) => exists|i: int| #![trigger exists@[i]]
                0 <= i < dirs@.len() && exists@[i] && p@ == path_join(dirs@[i]@, name@ + ".json"@)
                && forall|j: int| 0 <= j < i ==> !exists@[j],
            None => forall|i: int| 0 <= i < dirs@.len() ==> !exists@[i],
        },
{
    let mut i: usize = 0;
    while i < dirs.len()
        invariant
            i <= dirs@.len(),
            exists@.len() == dirs@.len(),
            forall|j: int| 0 <= j < i ==> !exists@[j],
        decreases dirs@.len() - i,
    {
        if exists[i] {
            let p = collection_file(dirs[i].as_str(), name);
            assert(exists@[i as int]);
            return Some(p);
        }
        i = i + 1;
    }
    None
}

} // verus!
