//! Suggestions produced from workspace patterns: their kinds, priorities
//! and the text that labels them.
use vstd::prelude::*;

verus! {

#[derive(Debug, Clone, PartialEq, Eq, PartialOrd, Ord)]
pub enum SuggestionPriority {
    High,
    Medium,
    Low,
}

impl SuggestionPriority {
    pub fn label(&self) -> (r: &'static str)
        ensures
            r@ == (match self {
                SuggestionPriority::High => "⚠ HIGH"@,
                SuggestionPriority::Medium => "→ MED"@,
                SuggestionPriority::Low => "· LOW"@,
            }),
    {
        match self {
            SuggestionPriority::High => "⚠ HIGH",
            SuggestionPriority::Medium => "→ MED",
            SuggestionPriority::Low => "· LOW",
        }
    }
}

#[derive(Debug, Clone)]
pub enum SuggestionKind {
    /// Opened repeatedly with no writes: something is blocking.
    StallBreaker,
    /// Mid-flow files from last session that deserve continuity.
    Continuity,
    /// A previously active project cluster has gone quiet.
    Neglect,
    /// Files likely to be needed soon: warm the cache.
    PreWarm,
    /// A session pattern worth surfacing.
    FocusHint,
}

impl SuggestionKind {
    pub fn label(&self) -> (r: &'static str)
        ensures
            r@ == (match self {
                SuggestionKind::StallBreaker => "StallBreaker"@,
                SuggestionKind::Continuity => "Continuity"@,
                SuggestionKind::Neglect => "Neglect"@,
                SuggestionKind::PreWarm => "PreWarm"@,
                SuggestionKind::FocusHint => "FocusHint"@,
            }),
    {
        match self {
            SuggestionKind::StallBreaker => "StallBreaker",
            SuggestionKind::Continuity => "Continuity",
            SuggestionKind::Neglect => "Neglect",
            SuggestionKind::PreWarm => "PreWarm",
            SuggestionKind::FocusHint => "FocusHint",
        }
    }
}

#[derive(Debug, Clone)]
pub struct Suggestion {
    pub priority: SuggestionPriority,
    pub kind: SuggestionKind,
    /// Human-readable message.
    pub message: String,
    /// File names this suggestion relates to.
    pub related_files: Vec<String>,
    /// Why the suggestion was made.
    pub basis: String,
}

/// Produces suggestions from a workspace model.
pub struct JarvisEngine;

} // verus!
