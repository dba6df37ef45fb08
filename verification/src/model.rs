//! The records that a version history is made of, and their models.

use vstd::prelude::*;
use crate::codec::Delta;

verus! {

/// A document: created once, changed only through its patches.
#[derive(Debug)]
pub struct Document {
    pub uuid: String,
    pub name: String,
    pub created_at: i64,
}

/// What a [`Document`] holds, as mathematical values.
pub struct DocumentView {
    pub uuid: Seq<char>,
    pub name: Seq<char>,
    pub created_at: i64,
}

impl View for Document {
    type V = DocumentView;

    open spec fn view(&self) -> DocumentView {
        DocumentView { uuid: self.uuid@, name: self.name@, created_at: self.created_at }
    }
}

/// One version of a document, stored as a delta against an earlier version.
/// Without a delta the version equals its base.
#[derive(Debug)]
pub struct Patch {
    pub uuid: String,
    pub document_uuid: String,
    pub timestamp: i64,
    pub delta: Option<Delta>,
}

/// What a [`Patch`] holds, as mathematical values.
pub struct PatchView {
    pub uuid: Seq<char>,
    pub document_uuid: Seq<char>,
    pub timestamp: i64,
    pub delta: Option<Seq<u8>>,
}

impl View for Patch {
    type V = PatchView;

    open spec fn view(&self) -> PatchView {
        PatchView {
            uuid: self.uuid@,
            document_uuid: self.document_uuid@,
            timestamp: self.timestamp,
            delta: match self.delta {
                Some(delta) => Some(delta@),
                None => None,
            },
        }
    }
}

/// The models of a sequence of patches, in the same order.
pub open spec fn patch_views(patches: Seq<Patch>) -> Seq<PatchView> {
    patches.map_values(|p: Patch| p@)
}

/// The models of a sequence of documents, in the same order.
pub open spec fn document_views(documents: Seq<Document>) -> Seq<DocumentView> {
    documents.map_values(|d: Document| d@)
}

/// The models of a sequence of byte strings, in the same order.
pub open spec fn byte_views(contents: Seq<Vec<u8>>) -> Seq<Seq<u8>> {
    contents.map_values(|c: Vec<u8>| c@)
}

/// The size of a document's history. The compression ratio is the quotient
/// of the two numbers that `compression_ratio_terms` returns.
#[derive(Debug, Clone, Copy, PartialEq, Eq, Structural)]
pub struct DocumentStats {
    pub total_patches: i64,
    pub total_delta_bytes: i64,
    pub total_uncompressed_bytes: i64,
}

impl DocumentStats {
    /// Numerator and denominator of the compression ratio: the uncompressed
    /// over the stored bytes where anything is stored, else one over one.
    pub open spec fn ratio_terms(self) -> (i64, i64) {
        if self.total_delta_bytes > 0 {
            (self.total_uncompressed_bytes, self.total_delta_bytes)
        } else {
            (1, 1)
        }
    }

    /// Numerator and denominator of the compression ratio. The denominator
    /// is never 0.
    pub fn compression_ratio_terms(&self) -> (terms: (i64, i64))
        ensures
            terms == self.ratio_terms(),
            terms.1 > 0,
    {
        if self.total_delta_bytes > 0 {
            (self.total_uncompressed_bytes, self.total_delta_bytes)
        } else {
            (1, 1)
        }
    }
}

/// Why an operation on the version history did not go through.
#[derive(Debug, Clone, Copy, PartialEq, Eq, Structural)]
pub enum VersionError {
    /// A patch names a document that the store does not hold.
    NotFound,
    /// The content to commit equals the latest version.
    NoChange,
    /// The codec rejected a delta for the base it was applied to.
    DecodeError,
    /// Reconstructed bytes are not valid UTF-8 where text was asked for.
    EncodingError,
    /// The store refused a row, or a total does not fit its column.
    StoreError,
}

/// A copy of a document.
pub fn clone_document(document: &Document) -> (copy: Document)
    ensures
        copy@ == document@,
{
    Document {
        uuid: document.uuid.clone(),
        name: document.name.clone(),
        created_at: document.created_at,
    }
}

/// A copy of a patch.
pub fn clone_patch(patch: &Patch) -> (copy: Patch)
    ensures
        copy@ == patch@,
{
    let delta = match &patch.delta {
        Some(delta) => Some(delta.duplicate()),
        None => None,
    };
    Patch {
        uuid: patch.uuid.clone(),
        document_uuid: patch.document_uuid.clone(),
        timestamp: patch.timestamp,
        delta,
    }
}

/// Whether two byte strings hold the same bytes.
pub fn bytes_equal(a: &[u8], b: &[u8]) -> (same: bool)
    ensures
        same == (a@ == b@),
{
    if a.len() != b.len() {
        return false;
    }
    let mut i: usize = 0;
    while i < a.len()
        invariant
            a.len() == b.len(),
            i <= a.len(),
            forall|j: int| 0 <= j < i ==> a@[j] == b@[j],
        decreases a.len() - i,
    {
        if a[i] != b[i] {
            return false;
        }
        i = i + 1;
    }
    assert(a@ =~= b@);
    true
}

} // verus!
