//! Remote wiki documents: the summaries a paginated listing yields, the
//! rules that pick which of them are indexed, and the synthetic paths their
//! records are keyed by.

use crate::store::clone_option_string;
use vstd::prelude::*;

verus! {

/// How many summaries one listing page asks for.
pub const OUTLINE_PAGE_LIMIT: usize = 100;

/// One document summary from the remote listing, with its full text once
/// fetched.
#[derive(Debug, Clone)]
pub struct OutlineDocument {
    /// The remote document id.
    pub id: String,
    /// The document title.
    pub title: String,
    /// The short URL id.
    pub url_id: String,
    /// The full markdown text; empty until fetched.
    pub text: String,
    /// When the remote document last changed.
    pub updated_at: String,
    /// When the document was archived, if it was.
    pub archived_at: Option<String>,
}

/// The ghost model of an `OutlineDocument`.
pub struct OutlineDocumentModel {
    /// See `OutlineDocument::id`.
    pub id: Seq<char>,
    /// See `OutlineDocument::title`.
    pub title: Seq<char>,
    /// See `OutlineDocument::url_id`.
    pub url_id: Seq<char>,
    /// See `OutlineDocument::text`.
    pub text: Seq<char>,
    /// See `OutlineDocument::updated_at`.
    pub updated_at: Seq<char>,
    /// See `OutlineDocument::archived_at`.
    pub archived_at: Option<Seq<char>>,
}

impl View for OutlineDocument {
    type V = OutlineDocumentModel;

    open spec fn view(&self) -> OutlineDocumentModel {
        OutlineDocumentModel {
            id: self.id@,
            title: self.title@,
            url_id: self.url_id@,
            text: self.text@,
            updated_at: self.updated_at@,
            archived_at: self.archived_at.deep_view(),
        }
    }
}

impl DeepView for OutlineDocument {
    type V = OutlineDocumentModel;

    open spec fn deep_view(&self) -> OutlineDocumentModel {
        self.view()
    }
}

/// Keeps the documents that were never archived.
pub open spec fn keep_active() -> spec_fn(OutlineDocumentModel) -> bool {
    |d: OutlineDocumentModel| d.archived_at is None
}

fn clone_outline_document(d: &OutlineDocument) -> (r: OutlineDocument)
    ensures
        r@ == d@,
{
    OutlineDocument {
        id: d.id.clone(),
        title: d.title.clone(),
        url_id: d.url_id.clone(),
        text: d.text.clone(),
        updated_at: d.updated_at.clone(),
        archived_at: clone_option_string(&d.archived_at),
    }
}

/// Drops archived documents from a listing, keeping the rest in order.
pub fn filter_active(docs: &Vec<OutlineDocument>) -> (r: Vec<OutlineDocument>)
    ensures
        r.deep_view() == docs.deep_view().filter(keep_active()),
{
    let n = docs.len();
    let mut r: Vec<OutlineDocument> = Vec::new();
    let mut i: usize = 0;
    proof {
        assert(docs.deep_view().subrange(0, 0) =~= Seq::<OutlineDocumentModel>::empty());
        assert(Seq::<OutlineDocumentModel>::empty().filter(keep_active())
            =~= Seq::<OutlineDocumentModel>::empty()) by {
            reveal(Seq::filter);
        }
        assert(r.deep_view() =~= Seq::<OutlineDocumentModel>::empty().filter(keep_active()));
    }
    while i < n
        invariant
            n == docs.len(),
            i <= n,
            r.deep_view() == docs.deep_view().subrange(0, i as int).filter(keep_active()),
        decreases n - i,
    {
        let ghost pre = docs.deep_view().subrange(0, i as int);
        let ghost cur = docs.deep_view()[i as int];
        proof {
            assert(cur == docs@[i as int]@);
            assert(docs.deep_view().subrange(0, i + 1) =~= pre.push(cur));
            pre.lemma_filter_push(cur, keep_active());
            assert(keep_active()(cur) == (cur.archived_at is None));
        }
        let ghost prek = r.deep_view();
        if docs[i].archived_at.is_none() {
            let d = clone_outline_document(&docs[i]);
            r.push(d);
            proof {
                assert(r.deep_view() =~= prek.push(cur));
            }
        }
        i += 1;
    }
    proof {
        assert(docs.deep_view().subrange(0, n as int) =~= docs.deep_view());
    }
    r
}

/// The synthetic store path of a remote document: its id under the
/// `outline://` scheme.
pub fn outline_path(id: &str) -> (r: String)
    ensures
        r@ == "outline://"@ + id@,
{
    let mut r = String::from_str("outline://");
    r.append(id);
    r
}

/// The offset of the next listing page: `None` when the page just fetched
/// was short — the listing is exhausted — or when a further offset cannot
/// be represented.
pub fn next_offset(offset: usize, limit: usize, count: usize) -> (r: Option<usize>)
    ensures
        count < limit ==> r is None,
        count >= limit && offset + limit <= usize::MAX ==> r == Some((offset + limit) as usize),
        count >= limit && offset + limit > usize::MAX ==> r is None,
{
    if count < limit {
        return None;
    }
    if limit > usize::MAX - offset {
        return None;
    }
    Some(offset + limit)
}

} // verus!
