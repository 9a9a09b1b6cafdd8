//! The space a build will take, projected before it runs, so a view can warn
//! when a selection will not fit. The projection aims near, not exact.

use crate::config::{BuildConfig, MAX_DISK_MB};
use vstd::prelude::*;

verus! {

/// A space projection for a build, in bytes; `target_bytes` 0 means no target.
#[derive(Clone, Debug, Default)]
pub struct Estimate {
    pub base_bytes: u64,
    pub apps_bytes: u64,
    pub art_bytes: u64,
    pub overhead_bytes: u64,
    pub target_bytes: u64,
}

impl Estimate {
    /// The sum of the parts.
    pub open spec fn sum(&self) -> int {
        self.base_bytes + self.apps_bytes + self.art_bytes + self.overhead_bytes
    }

    /// The projected total.
    pub fn total(&self) -> (r: u64)
        requires
            self.sum() <= u64::MAX,
        ensures
            r == self.sum(),
    {
        self.base_bytes + self.apps_bytes + self.art_bytes + self.overhead_bytes
    }

    /// Whether the projection fits the target (always, with no target).
    pub fn fits(&self) -> (r: bool)
        requires
            self.sum() <= u64::MAX,
        ensures
            r == (self.target_bytes == 0 || self.sum() <= self.target_bytes),
    {
        self.target_bytes == 0 || self.total() <= self.target_bytes
    }
}

/// `x`, capped at the largest `u64`.
pub open spec fn sat(x: int) -> int {
    if x > u64::MAX { u64::MAX as int } else { x }
}

/// `a * b`, saturating at the largest `u64`.
fn sat_mul(a: u64, b: u64) -> (r: u64)
    ensures
        r == sat(a * b),
{
    match a.checked_mul(b) {
        Some(v) => v,
        None => u64::MAX,
    }
}

/// Project disk usage for a resolved build: the base image's size
/// (`base_bytes`, 0 where it has none), the selected apps' fork bytes, about
/// 60 KB of art per item per depth variant (at least one), 512 KB of
/// catalog and slack, against the target size capped at the HFS ceiling.
pub fn estimate(cfg: &BuildConfig, base_bytes: u64, app_fork_bytes: u64, n_items: u64) -> (e: Estimate)
    ensures
        e.base_bytes == base_bytes,
        e.apps_bytes == app_fork_bytes,
        e.art_bytes == sat(sat(n_items * 60000) * (if cfg.art_depths@.len() > 1 { cfg.art_depths@.len() as int } else { 1 })),
        e.overhead_bytes == 512 * 1024,
        e.target_bytes == match cfg.disk_size_mb {
            Some(mb) => (if mb < MAX_DISK_MB { mb as int } else { MAX_DISK_MB as int }) * 1024 * 1024,
            None => 0,
        },
{
    let n = cfg.art_depths.len();
    let dv: u64 = if n > 1 { n as u64 } else { 1 };
    let art_bytes = sat_mul(sat_mul(n_items, 60_000), dv);
    let target_bytes: u64 = match cfg.disk_size_mb {
        Some(mb) => {
            let m = if mb < MAX_DISK_MB { mb } else { MAX_DISK_MB };
            m * 1024 * 1024
        },
        None => 0,
    };
    Estimate { base_bytes, apps_bytes: app_fork_bytes, art_bytes, overhead_bytes: 512 * 1024, target_bytes }
}

} // verus!
