//! Per-file access statistics that importance scoring works from, and the
//! storage tiers a score maps to.
use vstd::prelude::*;
use std::collections::HashMap;
use vstd::string::*;
use crate::clock::unix_now_secs;

verus! {

broadcast use {vstd::std_specs::hash::group_hash_axioms, vstd::string::group_string_axioms};

/// Storage tier: where a file lives based on importance.
#[derive(Debug, Clone, PartialEq, Eq, Structural)]
pub enum StorageTier {
    Hot,
    Warm,
    Cold,
}

impl StorageTier {
    pub fn label(&self) -> (r: &'static str)
        ensures
            r@ == (match self {
                StorageTier::Hot => "🔥 HOT"@,
                StorageTier::Warm => "🌤 WARM"@,
                StorageTier::Cold => "🧊 COLD"@,
            }),
    {
        match self {
            StorageTier::Hot => "🔥 HOT",
            StorageTier::Warm => "🌤 WARM",
            StorageTier::Cold => "🧊 COLD",
        }
    }
}

/// Per file: name, access count, last access (unix seconds) and total
/// seconds open.
pub type FileStats = (String, u32, u64, u64);

pub struct ImportanceEngine {
    pub stats: HashMap<u64, FileStats>,
}

impl ImportanceEngine {
    pub fn new() -> (r: Self)
        ensures
            r.stats@ == Map::<u64, FileStats>::empty(),
    {
        Self { stats: HashMap::new() }
    }

    /// Record an access at `now`: one more access, last access `now`, and
    /// the open time added. A file seen for the first time keeps `name`.
    pub fn record_access_at(&mut self, ino: u64, name: &str, open_duration_secs: u64, now: u64)
        requires
            old(self).stats@.contains_key(ino) ==> old(self).stats@[ino].1 < u32::MAX
                && old(self).stats@[ino].3 + open_duration_secs <= u64::MAX,
        ensures
            final(self).stats@.dom() == old(self).stats@.dom().insert(ino),
            forall|k: u64| k != ino && #[trigger] old(self).stats@.contains_key(k) ==> final(self).stats@[k] == old(self).stats@[k],
            old(self).stats@.contains_key(ino) ==> final(self).stats@[ino] == (
                old(self).stats@[ino].0,
                (old(self).stats@[ino].1 + 1) as u32,
                now,
                (old(self).stats@[ino].3 + open_duration_secs) as u64,
            ),
            !old(self).stats@.contains_key(ino) ==> final(self).stats@[ino].0@ == name@
                && final(self).stats@[ino].1 == 1 && final(self).stats@[ino].2 == now
                && final(self).stats@[ino].3 == open_duration_secs,
    {
        let entry: FileStats = match self.stats.remove(&ino) {
            Some(e) => e,
            None => (name.to_string(), 0, 0, 0),
        };
        let (n, count, _, open) = entry;
        self.stats.insert(ino, (n, count + 1, now, open + open_duration_secs));
    }

    /// Record an access happening now.
    pub fn record_access(&mut self, ino: u64, name: &str, open_duration_secs: u64)
        requires
            old(self).stats@.contains_key(ino) ==> old(self).stats@[ino].1 < u32::MAX
                && old(self).stats@[ino].3 + open_duration_secs <= u64::MAX,
        ensures
            final(self).stats@.dom() == old(self).stats@.dom().insert(ino),
            forall|k: u64| k != ino && #[trigger] old(self).stats@.contains_key(k) ==> final(self).stats@[k] == old(self).stats@[k],
            old(self).stats@.contains_key(ino) ==> final(self).stats@[ino].0 == old(self).stats@[ino].0
                && final(self).stats@[ino].1 == old(self).stats@[ino].1 + 1
                && final(self).stats@[ino].3 == old(self).stats@[ino].3 + open_duration_secs,
            !old(self).stats@.contains_key(ino) ==> final(self).stats@[ino].0@ == name@
                && final(self).stats@[ino].1 == 1 && final(self).stats@[ino].3 == open_duration_secs,
    {
        self.record_access_at(ino, name, open_duration_secs, unix_now_secs());
    }
}

} // verus!
