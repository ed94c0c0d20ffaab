use vstd::prelude::*;

verus! {

/// The mathematical value of a reduced document: its stable identifier and
/// the serialized text of its source object.
pub struct DocModel {
    pub id: Seq<u8>,
    pub source: Seq<u8>,
}

/// A reduced document: the only part of a retrieved document that is
/// persisted and replayed. `source` holds the serialized JSON object text
/// of the document body; the library treats it as opaque bytes framed by
/// the codec.
pub struct Doc {
    pub id: Vec<u8>,
    pub source: Vec<u8>,
}

impl View for Doc {
    type V = DocModel;

    open spec fn view(&self) -> DocModel {
        DocModel { id: self.id@, source: self.source@ }
    }
}

/// The models of a sequence of documents.
pub open spec fn doc_views(ds: Seq<Doc>) -> Seq<DocModel> {
    ds.map_values(|d: Doc| d@)
}

/// One hit of a paginated query as the cluster reports it: the document
/// plus transient retrieval metadata (origin collection, legacy type and
/// relevance score, each kept as its reported text when present).
pub struct RawHit {
    pub id: Vec<u8>,
    pub source: Vec<u8>,
    pub origin_index: Option<Vec<u8>>,
    pub doc_type: Option<Vec<u8>>,
    pub score: Option<Vec<u8>>,
}

/// Strip the transient retrieval metadata from a hit, leaving the reduced
/// document: identifier and source content only.
pub fn reduce_document_size(hit: RawHit) -> (r: Doc)
    ensures
        r@.id == hit.id@,
        r@.source == hit.source@,
{
    Doc { id: hit.id, source: hit.source }
}

} // verus!
