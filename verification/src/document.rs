//! Documents and the chunks made from them.

use vstd::prelude::*;
use crate::chunk::{chunk_text, spec_chunk_text};
use crate::text::string_views;

verus! {

/// A document as it was loaded.
#[derive(Debug, Clone)]
pub struct Document {
    pub id: usize,
    pub text: String,
    pub category: String,
    /// Seconds since 1970-01-01, where the document is dated.
    pub timestamp: Option<i64>,
}

/// One chunk of a document.
#[derive(Debug, Clone)]
pub struct Chunk {
    pub doc_id: usize,
    /// The position of the chunk within its document, from zero.
    pub chunk_id: usize,
    pub category: String,
    pub text: String,
}

/// A chunk, as a mathematical value.
pub struct ChunkModel {
    pub doc_id: nat,
    pub chunk_id: nat,
    pub category: Seq<char>,
    pub text: Seq<char>,
}

/// A document, as a mathematical value.
pub struct DocumentModel {
    pub id: nat,
    pub text: Seq<char>,
    pub category: Seq<char>,
    pub timestamp: Option<int>,
}

impl View for Chunk {
    type V = ChunkModel;

    open spec fn view(&self) -> ChunkModel {
        ChunkModel {
            doc_id: self.doc_id as nat,
            chunk_id: self.chunk_id as nat,
            category: self.category@,
            text: self.text@,
        }
    }
}

impl View for Document {
    type V = DocumentModel;

    open spec fn view(&self) -> DocumentModel {
        DocumentModel {
            id: self.id as nat,
            text: self.text@,
            category: self.category@,
            timestamp: match self.timestamp {
                Some(t) => Some(t as int),
                None => None,
            },
        }
    }
}

/// The models of a vector of chunks.
pub open spec fn chunk_views(v: Seq<Chunk>) -> Seq<ChunkModel> {
    Seq::new(v.len(), |i: int| v[i]@)
}

/// The models of a vector of documents.
pub open spec fn document_views(v: Seq<Document>) -> Seq<DocumentModel> {
    Seq::new(v.len(), |i: int| v[i]@)
}

/// The texts of a vector of chunks.
pub open spec fn chunk_texts(v: Seq<Chunk>) -> Seq<Seq<char>> {
    Seq::new(v.len(), |i: int| v[i].text@)
}

/// The chunks of one document: its chunk texts in order, numbered from
/// zero, each with the document's id and category.
pub open spec fn document_chunks(doc: DocumentModel, size: int, overlap: int) -> Seq<ChunkModel> {
    let texts = spec_chunk_text(doc.text, size, overlap);
    Seq::new(
        texts.len(),
        |k: int|
            ChunkModel { doc_id: doc.id, chunk_id: k as nat, category: doc.category, text: texts[k] },
    )
}

/// The chunks of all documents, document after document.
pub open spec fn spec_chunk_documents(docs: Seq<DocumentModel>, size: int, overlap: int) -> Seq<
    ChunkModel,
>
    decreases docs.len(),
{
    if docs.len() == 0 {
        Seq::empty()
    } else {
        spec_chunk_documents(docs.drop_last(), size, overlap) + document_chunks(
            docs.last(),
            size,
            overlap,
        )
    }
}

/// Each document as one chunk with the number zero.
pub open spec fn spec_whole_documents(docs: Seq<DocumentModel>) -> Seq<ChunkModel> {
    Seq::new(
        docs.len(),
        |i: int|
            ChunkModel {
                doc_id: docs[i].id,
                chunk_id: 0,
                category: docs[i].category,
                text: docs[i].text,
            },
    )
}

/// Within a document the chunk numbers are dense and in order: chunk `k`
/// has the number `k`.
pub proof fn lemma_chunk_ids_dense(doc: DocumentModel, size: int, overlap: int, k: int)
    requires
        0 <= k < document_chunks(doc, size, overlap).len(),
    ensures
        document_chunks(doc, size, overlap)[k].chunk_id == k,
        document_chunks(doc, size, overlap)[k].doc_id == doc.id,
        document_chunks(doc, size, overlap)[k].text == spec_chunk_text(doc.text, size, overlap)[k],
        document_chunks(doc, size, overlap).len() == spec_chunk_text(doc.text, size, overlap).len(),
{
}

/// Cuts every document into chunks and numbers the chunks of each document
/// from zero.
pub fn chunk_documents(docs: &Vec<Document>, chunk_size: usize, overlap: usize) -> (chunks: Vec<
    Chunk,
>)
    ensures
        chunk_views(chunks@) == spec_chunk_documents(
            document_views(docs@),
            chunk_size as int,
            overlap as int,
        ),
{
    let mut chunks: Vec<Chunk> = Vec::new();
    let ghost dv = document_views(docs@);
    let mut i: usize = 0;
    while i < docs.len()
        invariant
            i <= docs.len(),
            dv == document_views(docs@),
            chunk_views(chunks@) == spec_chunk_documents(
                dv.subrange(0, i as int),
                chunk_size as int,
                overlap as int,
            ),
        decreases docs.len() - i,
    {
        let doc = &docs[i];
        let ghost pre = dv.subrange(0, i as int);
        let ghost post = dv.subrange(0, i + 1);
        assert(post.drop_last() == pre);
        assert(post.last() == doc@);
        let mut texts = chunk_text(doc.text.as_str(), chunk_size, overlap);
        let ghost tv = string_views(texts@);
        let ghost base = chunk_views(chunks@);
        let ghost own = document_chunks(doc@, chunk_size as int, overlap as int);
        let count = texts.len();
        let mut k: usize = 0;
        while k < count
            invariant
                k <= count,
                count == texts.len(),
                count == tv.len(),
                count == own.len(),
                tv == spec_chunk_text(doc@.text, chunk_size as int, overlap as int),
                own == document_chunks(doc@, chunk_size as int, overlap as int),
                forall|j: int| k <= j < count ==> texts@[j]@ == tv[j],
                chunk_views(chunks@) == base + own.subrange(0, k as int),
            decreases count - k,
        {
            let mut text = String::new();
            std::mem::swap(&mut text, &mut texts[k]);
            let ghost before = chunks@;
            let chunk = Chunk { doc_id: doc.id, chunk_id: k, category: doc.category.clone(), text };
            chunks.push(chunk);
            proof {
                assert(chunk@ == own[k as int]);
                assert(chunk_views(chunks@) == chunk_views(before).push(chunk@));
                assert(own.subrange(0, k + 1) == own.subrange(0, k as int).push(own[k as int]));
                assert(chunk_views(chunks@) == base + own.subrange(0, k + 1));
            }
            k += 1;
        }
        assert(own.subrange(0, count as int) == own);
        i += 1;
    }
    assert(dv.subrange(0, docs.len() as int) == dv);
    chunks
}

/// Takes every document whole, as its one chunk.
pub fn documents_as_chunks(docs: &Vec<Document>) -> (chunks: Vec<Chunk>)
    ensures
        chunk_views(chunks@) == spec_whole_documents(document_views(docs@)),
{
    let mut chunks: Vec<Chunk> = Vec::new();
    let mut i: usize = 0;
    while i < docs.len()
        invariant
            i <= docs.len(),
            chunks.len() == i,
            forall|j: int|
                0 <= j < i ==> (#[trigger] chunks@[j])@ == spec_whole_documents(
                    document_views(docs@),
                )[j],
        decreases docs.len() - i,
    {
        let doc = &docs[i];
        chunks.push(
            Chunk {
                doc_id: doc.id,
                chunk_id: 0,
                category: doc.category.clone(),
                text: doc.text.clone(),
            },
        );
        i += 1;
    }
    assert(chunk_views(chunks@) =~= spec_whole_documents(document_views(docs@)));
    chunks
}

} // verus!
