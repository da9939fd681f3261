use vstd::prelude::*;

verus! {

/// Identifier of a term, handed out from 1 in first-seen order.
pub type TermId = u32;

/// Identifier of a document, handed out from 1 in insertion order.
pub type DocId = u32;

/// One-based offset of a token within its document.
pub type TermOffset = u32;

/// Offset that stands before every token of a document.
pub const DOC_BEGIN: u32 = 0;

/// Offset that stands after every token of a document.
pub const DOC_END: u32 = 0xffff_ffff;

/// The scorer a query is answered with.
#[derive(Clone, Copy, Debug, PartialEq, Eq, Structural)]
pub enum RankingAlgorithm {
    Default,
    ExactMatch,
    VectorSpaceModel,
    OkapiBM25,
    LMD,
}

} // verus!
