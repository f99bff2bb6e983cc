//! Documents on their way in, and results on their way out.

use crate::scalar::Scalar;
use std::collections::HashMap;
use vstd::prelude::*;

verus! {

/// A raw document.
#[derive(Debug, Clone)]
pub struct Document {
    pub id: u64,
    pub text: String,
    pub metadata: HashMap<String, String>,
}

/// A document together with its dense vector.
#[derive(Debug, Clone)]
pub struct EmbeddedDoc {
    pub id: u64,
    pub text: String,
    pub embedding: Vec<Scalar>,
    pub metadata: HashMap<String, String>,
}

/// A search result.
#[derive(Debug, Clone)]
pub struct ScoredDoc {
    pub id: u64,
    pub text: String,
    pub score: Scalar,
    pub source: SearchSource,
    pub metadata: HashMap<String, String>,
}

/// The store that a result came from.
#[derive(Debug, Clone, Copy, PartialEq, Eq, Structural)]
pub enum SearchSource {
    TurboVec,
    LanceDb,
    Federated,
}

/// What a search result says.
pub struct ScoredView {
    pub id: u64,
    pub text: Seq<char>,
    pub score: Scalar,
    pub source: SearchSource,
    pub metadata: Map<String, String>,
}

impl View for ScoredDoc {
    type V = ScoredView;

    open spec fn view(&self) -> ScoredView {
        ScoredView {
            id: self.id,
            text: self.text@,
            score: self.score,
            source: self.source,
            metadata: self.metadata@,
        }
    }
}

/// What a raw document says.
pub struct DocumentView {
    pub id: u64,
    pub text: Seq<char>,
    pub metadata: Map<String, String>,
}

impl View for Document {
    type V = DocumentView;

    open spec fn view(&self) -> DocumentView {
        DocumentView { id: self.id, text: self.text@, metadata: self.metadata@ }
    }
}

/// What a document with its vector says.
pub struct EmbeddedView {
    pub id: u64,
    pub text: Seq<char>,
    pub embedding: Seq<Scalar>,
    pub metadata: Map<String, String>,
}

impl View for EmbeddedDoc {
    type V = EmbeddedView;

    open spec fn view(&self) -> EmbeddedView {
        EmbeddedView {
            id: self.id,
            text: self.text@,
            embedding: self.embedding@,
            metadata: self.metadata@,
        }
    }
}

/// What documents with their vectors say.
pub open spec fn embedded_views(docs: Seq<EmbeddedDoc>) -> Seq<EmbeddedView> {
    docs.map_values(|d: EmbeddedDoc| d@)
}

/// What documents with their vectors say, each says for itself: identifier, text, vector and
/// metadata, all of them whole.
pub proof fn law_views_of_documents(docs: Seq<EmbeddedDoc>, i: int)
    requires
        0 <= i < docs.len(),
    ensures
        embedded_views(docs).len() == docs.len(),
        embedded_views(docs)[i].id == docs[i].id,
        embedded_views(docs)[i].text == docs[i].text@,
        embedded_views(docs)[i].embedding == docs[i].embedding@,
        embedded_views(docs)[i].metadata == docs[i].metadata@,
{
}

/// Two search results that say the same have the same identifier, text, score, source and
/// metadata.
pub proof fn law_results_say_all(a: ScoredDoc, b: ScoredDoc)
    requires
        a@ == b@,
    ensures
        a.id == b.id,
        a.text@ == b.text@,
        a.score == b.score,
        a.source == b.source,
        a.metadata@ == b.metadata@,
{
}

/// Two raw documents that say the same have the same identifier, text and metadata.
pub proof fn law_documents_say_all(a: Document, b: Document)
    requires
        a@ == b@,
    ensures
        a.id == b.id,
        a.text@ == b.text@,
        a.metadata@ == b.metadata@,
{
}

} // verus!
