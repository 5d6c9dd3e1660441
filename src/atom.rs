use vstd::prelude::*;

verus! {

/// Confidence is held in millionths: `CONFIDENCE_SCALE` stands for 1.0.
pub const CONFIDENCE_SCALE: u32 = 1_000_000;

/// The atomic unit of knowledge, with its provenance and a confidence score.
pub struct SemanticAtom {
    pub id: String,
    pub concept: String,
    pub definition: String,
    pub source_agent: String,
    pub source_type: String,
    /// Creation time, in whatever tick the producer uses.
    pub timestamp: u64,
    /// Confidence in millionths, within `0..=CONFIDENCE_SCALE`.
    pub confidence: u32,
    /// Ids of the atoms this one was derived from.
    pub parent_sources: Vec<String>,
}

/// Every failure of the store: all are deterministic and leave it unchanged.
#[derive(PartialEq, Eq, Structural, Debug, Clone, Copy)]
pub enum StoreError {
    DuplicateId,
    InvalidConfidence,
    DanglingParent,
    CycleDetected,
    ConfidenceRegression,
    EmptyQuery,
    InvalidRange,
    UnknownId,
}

/// The ids an atom names as its parents.
pub open spec fn parents_of(a: SemanticAtom) -> Seq<Seq<char>> {
    a.parent_sources@.map_values(|p: String| p@)
}

} // verus!
