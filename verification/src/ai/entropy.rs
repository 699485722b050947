//! Ransomware signals: threat levels and the file extensions that
//! encrypting malware leaves behind.
use vstd::prelude::*;
use vstd::string::*;
use crate::text::{chars_end_with, chars_of, ends_with};
use crate::walk::{lemma_filter_empty, lemma_filter_step};

verus! {

/// Name for what `str::to_lowercase` returns for a text.
pub uninterp spec fn lowercase(s: Seq<char>) -> Seq<char>;

/// Calls `str::to_lowercase`. The result is the named lowercase form of
/// exactly this text; Unicode case mapping is not spelled out here.
#[verifier::external_body]
pub(crate) fn to_lowercase(s: &str) -> (r: String)
    ensures
        r@ == lowercase(s@),
{
    s.to_lowercase()
}

/// The extensions ransomware is known to leave behind.
pub open spec fn suspicious_suffix(lower: Seq<char>) -> bool {
    ||| ends_with(lower, ".locked"@)
    ||| ends_with(lower, ".enc"@)
    ||| ends_with(lower, ".crypt"@)
    ||| ends_with(lower, ".crypted"@)
    ||| ends_with(lower, ".encrypt"@)
    ||| ends_with(lower, ".crypz"@)
    ||| ends_with(lower, ".cerber"@)
    ||| ends_with(lower, ".locky"@)
    ||| ends_with(lower, ".wncry"@)
    ||| ends_with(lower, ".wnry"@)
    ||| ends_with(lower, ".wcry"@)
    ||| ends_with(lower, ".petya"@)
}

/// Whether the lowercased file name ends with a ransomware extension.
pub fn is_suspicious_extension(name: &str) -> (r: bool)
    ensures
        r == suspicious_suffix(lowercase(name@)),
{
    let lower = to_lowercase(name);
    let s = chars_of(lower.as_str());
    chars_end_with(&s, ".locked") || chars_end_with(&s, ".enc") || chars_end_with(&s, ".crypt")
        || chars_end_with(&s, ".crypted") || chars_end_with(&s, ".encrypt") || chars_end_with(&s, ".crypz")
        || chars_end_with(&s, ".cerber") || chars_end_with(&s, ".locky") || chars_end_with(&s, ".wncry")
        || chars_end_with(&s, ".wnry") || chars_end_with(&s, ".wcry") || chars_end_with(&s, ".petya")
}

#[derive(Debug, Clone, PartialEq, Eq, Structural)]
pub enum ThreatLevel {
    /// Single very-high entropy write on a file that was plaintext.
    Critical,
    /// High entropy write: suspicious but not confirmed.
    Warning,
    /// Suspicious file extension regardless of entropy.
    Extension,
    /// Multiple high-entropy writes in a short window.
    Pattern,
}

impl ThreatLevel {
    pub fn label(&self) -> (r: &'static str)
        ensures
            r@ == (match self {
                ThreatLevel::Critical => "🚨 CRITICAL"@,
                ThreatLevel::Warning => "⚠️  WARNING"@,
                ThreatLevel::Extension => "🔍 SUSPICIOUS"@,
                ThreatLevel::Pattern => "🚨 PATTERN"@,
            }),
    {
        match self {
            ThreatLevel::Critical => "🚨 CRITICAL",
            ThreatLevel::Warning => "⚠️  WARNING",
            ThreatLevel::Extension => "🔍 SUSPICIOUS",
            ThreatLevel::Pattern => "🚨 PATTERN",
        }
    }
}

/// How many times `b` occurs in `s`.
pub open spec fn occurrences(s: Seq<u8>, b: u8) -> nat
    decreases s.len(),
{
    if s.len() == 0 {
        0
    } else {
        occurrences(s.drop_last(), b) + if s.last() == b { 1nat } else { 0nat }
    }
}

/// How often each byte value occurs in `data`: the counts the entropy of a
/// write is computed from.
pub fn byte_histogram(data: &[u8]) -> (r: Vec<u64>)
    ensures
        r@.len() == 256,
        forall|b: u8| #[trigger] r@[b as int] == occurrences(data@, b),
{
    let mut counts: Vec<u64> = Vec::new();
    let mut j: usize = 0;
    while j < 256
        invariant
            j <= 256,
            counts@.len() == j,
            forall|k: int| 0 <= k < j ==> #[trigger] counts@[k] == 0,
        decreases 256 - j,
    {
        counts.push(0);
        j = j + 1;
    }
    let mut i: usize = 0;
    while i < data.len()
        invariant
            i <= data@.len(),
            counts@.len() == 256,
            forall|b: u8| #[trigger] counts@[b as int] == occurrences(data@.take(i as int), b),
            forall|b: u8| #[trigger] occurrences(data@.take(i as int), b) <= i,
        decreases data@.len() - i,
    {
        let x = data[i];
        proof {
            assert(data@.take(i + 1).drop_last() =~= data@.take(i as int));
            assert(data@.take(i + 1).last() == x);
        }
        let c = counts[x as usize];
        let ghost before = counts@;
        counts.set(x as usize, c + 1);
        i = i + 1;
        assert forall|b: u8| #[trigger] counts@[b as int] == occurrences(data@.take(i as int), b) by {
            if b != x {
                assert(counts@[b as int] == before[b as int]);
            }
        }
        assert forall|b: u8| #[trigger] occurrences(data@.take(i as int), b) <= i by {
            assert(data@.take(i as int).drop_last() =~= data@.take(i - 1));
            assert(occurrences(data@.take(i - 1), b) <= i - 1);
        }
    }
    assert(data@.take(data@.len() as int) =~= data@);
    counts
}

/// Timestamps of recent writes: those at most `window` seconds before
/// `now`, then `now`.
pub open spec fn window_after(stamps: Seq<u64>, now: u64, window: u64) -> Seq<u64> {
    stamps.filter(|t: u64| now - t <= window).push(now)
}

/// Drop the write times older than the window and add `now`; the number
/// of writes now in the window.
pub fn record_in_window(stamps: &mut Vec<u64>, now: u64, window: u64) -> (r: usize)
    ensures
        final(stamps)@ == window_after(old(stamps)@, now, window),
        r == final(stamps)@.len(),
{
    let ghost pred = |t: u64| now - t <= window;
    let mut kept: Vec<u64> = Vec::new();
    let mut i: usize = 0;
    proof {
        lemma_filter_empty(stamps@, pred);
    }
    while i < stamps.len()
        invariant
            i <= stamps@.len(),
            stamps@ == old(stamps)@,
            pred == (|t: u64| now - t <= window),
            kept@ == stamps@.subrange(0, i as int).filter(pred),
        decreases stamps@.len() - i,
    {
        let t = stamps[i];
        proof {
            lemma_filter_step(stamps@, i as int, pred);
        }
        if now.saturating_sub(t) <= window {
            kept.push(t);
        }
        i = i + 1;
    }
    assert(stamps@.subrange(0, stamps@.len() as int) =~= stamps@);
    kept.push(now);
    *stamps = kept;
    stamps.len()
}

} // verus!
