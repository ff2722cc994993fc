//! The ingestion pipeline's decisions: change detection by fingerprint,
//! replacement of a changed document's chunk set, chunk attachment in
//! order, and the poll-able batch status. The caller drives the batch and
//! requests one embedding per chunk; unchanged content never reaches it.

use crate::store::{
    keep_other_chunks, Artifact, ArtifactModel, Embedding, EmbeddingModel, Store,
};
use crate::text::{dec_digits, eq_str, u64_to_dec};
use vstd::prelude::*;

verus! {

/// An ingestion failure for one document.
#[derive(Debug, Clone)]
pub enum IngestError {
    /// The record store failed.
    Database(String),
    /// The document could not be parsed.
    Parser(String),
    /// The embedding backend failed.
    Embedding(String),
    /// The source could not be read.
    Io(String),
}

/// A poll-able snapshot of batch progress: not a queue.
#[derive(Debug, Clone)]
pub struct SyncStatus {
    /// Whether a batch is running now.
    pub is_running: bool,
    /// How many documents the batch holds.
    pub total_files: usize,
    /// How many documents were processed so far.
    pub processed_files: usize,
    /// When a batch last completed, in seconds.
    pub last_sync_at: Option<i64>,
    /// The last error message, if any.
    pub error: Option<String>,
}

impl Default for SyncStatus {
    /// No batch yet: idle, empty counts, no completion, no error.
    fn default() -> (r: SyncStatus)
        ensures
            !r.is_running,
            r.total_files == 0,
            r.processed_files == 0,
            r.last_sync_at is None,
            r.error is None,
    {
        SyncStatus {
            is_running: false,
            total_files: 0,
            processed_files: 0,
            last_sync_at: None,
            error: None,
        }
    }
}

/// Marks a batch of `total` documents as started: counts reset, no error.
pub fn begin_sync(status: &mut SyncStatus, total: usize)
    ensures
        final(status).is_running,
        final(status).total_files == total,
        final(status).processed_files == 0,
        final(status).error is None,
        final(status).last_sync_at == old(status).last_sync_at,
{
    status.is_running = true;
    status.total_files = total;
    status.processed_files = 0;
    status.error = None;
}

/// Counts one more document as processed, whether it succeeded or was
/// skipped: the batch never aborts on one document's failure.
pub fn record_progress(status: &mut SyncStatus)
    requires
        old(status).processed_files < usize::MAX,
    ensures
        final(status).processed_files == old(status).processed_files + 1,
        final(status).is_running == old(status).is_running,
        final(status).total_files == old(status).total_files,
        final(status).last_sync_at == old(status).last_sync_at,
        final(status).error == old(status).error,
{
    status.processed_files = status.processed_files + 1;
}

/// Records the error message of a failed batch step.
pub fn record_error(status: &mut SyncStatus, message: String)
    ensures
        final(status).error == Some(message),
        final(status).is_running == old(status).is_running,
        final(status).total_files == old(status).total_files,
        final(status).processed_files == old(status).processed_files,
        final(status).last_sync_at == old(status).last_sync_at,
{
    status.error = Some(message);
}

/// Marks the batch as completed at `now`.
pub fn finish_sync(status: &mut SyncStatus, now: i64)
    ensures
        !final(status).is_running,
        final(status).last_sync_at == Some(now),
        final(status).total_files == old(status).total_files,
        final(status).processed_files == old(status).processed_files,
        final(status).error == old(status).error,
{
    status.is_running = false;
    status.last_sync_at = Some(now);
}

/// Relies on uuid's `Uuid::new_v4` and its hyphenated rendering: a fresh
/// random id, 36 characters long. Nothing more is promised of its value.
#[verifier::external_body]
fn fresh_artifact_id() -> (r: String)
    ensures
        r@.len() == 36,
{
    uuid::Uuid::new_v4().to_string()
}

/// The key of a document's chunk: the document id and the 0-based ordinal,
/// joined by `#`.
pub open spec fn chunk_id_of(artifact_id: Seq<char>, index: int) -> Seq<char> {
    artifact_id + "#"@ + dec_digits(index)
}

/// Builds a chunk key.
pub fn make_chunk_id(artifact_id: &str, index: usize) -> (r: String)
    ensures
        r@ == chunk_id_of(artifact_id@, index as int),
{
    let mut r = String::from_str(artifact_id);
    r.append("#");
    r.append(u64_to_dec(index as u64).as_str());
    proof {
        assert(r@ =~= chunk_id_of(artifact_id@, index as int));
    }
    r
}

/// The store already holds the document at `path` with fingerprint `fp`:
/// the central cost-avoidance condition — such a document is skipped and
/// never re-embedded.
pub open spec fn has_current(arts: Seq<ArtifactModel>, path: Seq<char>, fp: Seq<char>) -> bool {
    exists|i: int|
        0 <= i < arts.len() && (#[trigger] arts[i]).path == path && arts[i].content_hash == fp
}

/// Decides and applies the per-document ingestion step, before any
/// embedding is requested, with the id for a new path given by the caller.
///
/// `Ok(None)` is the skip: the store already holds this path with this
/// fingerprint, nothing is written and no chunk needs embedding. `Ok(Some(id))`
/// means the document's record now stands under `id` — the old chunks of a
/// changed document were deleted, or a fresh record was appended — and the
/// caller must now embed and attach each chunk in order. The id is the
/// existing record's id when one existed; only a new path takes `fresh_id`,
/// and is refused exactly when `fresh_id` is already in use, so a fresh id
/// that collides with no record always succeeds.
pub fn prepare_document_with_id(
    store: &mut Store,
    path: &str,
    content_hash: &str,
    last_modified: i64,
    now: i64,
    fresh_id: &str,
) -> (r: Result<Option<String>, IngestError>)
    requires
        old(store).wf(),
    ensures
        final(store).wf(),
        final(store).messages() == old(store).messages(),
        final(store).next_message_id() == old(store).next_message_id(),
        has_current(old(store).artifacts(), path@, content_hash@) ==> r == Ok::<
            Option<String>,
            IngestError,
        >(None) && final(store).artifacts() == old(store).artifacts() && final(store).embeddings()
            == old(store).embeddings(),
        !has_current(old(store).artifacts(), path@, content_hash@) && (exists|i: int|
            0 <= i < old(store).artifacts().len() && (#[trigger] old(store).artifacts()[i]).path
                == path@) ==> (r matches Ok(Some(id)) && exists|i: int|
            0 <= i < old(store).artifacts().len() && (#[trigger] old(store).artifacts()[i]).path
                == path@ && id@ == old(store).artifacts()[i].id && final(store).artifacts() == old(store).artifacts().update(
                i,
                ArtifactModel {
                    id: old(store).artifacts()[i].id,
                    path: path@,
                    last_modified: last_modified,
                    content_hash: content_hash@,
                    indexed_at: now,
                },
            ) && final(store).embeddings() == old(store).embeddings().filter(
                keep_other_chunks(old(store).artifacts()[i].id),
            )),
        (forall|i: int|
            0 <= i < old(store).artifacts().len() ==> (#[trigger] old(store).artifacts()[i]).path
                != path@) && r is Ok ==> (r matches Ok(Some(id)) && id@ == fresh_id@
            && final(store).artifacts() == old(store).artifacts().push(
            ArtifactModel {
                id: fresh_id@,
                path: path@,
                last_modified: last_modified,
                content_hash: content_hash@,
                indexed_at: now,
            },
        ) && final(store).embeddings() == old(store).embeddings()),
        (forall|i: int|
            0 <= i < old(store).artifacts().len() ==> (#[trigger] old(store).artifacts()[i]).path
                != path@) && (forall|j: int|
            0 <= j < old(store).artifacts().len() ==> (#[trigger] old(store).artifacts()[j]).id
                != fresh_id@) ==> r is Ok,
        r is Err ==> final(store).artifacts() == old(store).artifacts() && final(store).embeddings() == old(store).embeddings() && (forall|i: int|
            0 <= i < old(store).artifacts().len() ==> (#[trigger] old(store).artifacts()[i]).path
                != path@) && (exists|j: int|
            0 <= j < old(store).artifacts().len() && (#[trigger] old(store).artifacts()[j]).id
                == fresh_id@),
        r matches Ok(Some(id)) ==> has_current(
            final(store).artifacts(),
            path@,
            content_hash@,
        ) && (exists|i: int|
            0 <= i < final(store).artifacts().len() && (#[trigger] final(store).artifacts()[i]).path
                == path@ && final(store).artifacts()[i].id == id@),
{
    let existing = store.get_artifact_by_path(path);
    match existing {
        Some(a) => {
            if eq_str(a.content_hash.as_str(), content_hash) {
                proof {
                    assert(has_current(store.artifacts(), path@, content_hash@));
                }
                return Ok(None);
            }
            proof {
                assert(!has_current(store.artifacts(), path@, content_hash@)) by {
                    if has_current(store.artifacts(), path@, content_hash@) {
                        let w = choose|w: int|
                            0 <= w < store.artifacts().len() && (
                            #[trigger] store.artifacts()[w]).path == path@
                                && store.artifacts()[w].content_hash == content_hash@;
                        let v = choose|v: int|
                            0 <= v < store.artifacts().len() && #[trigger] store.artifacts()[v]
                                == a@;
                        assert(!(w < v) && !(v < w));
                    }
                }
            }
            store.delete_embeddings_by_artifact(a.id.as_str());
            let updated = Artifact {
                id: a.id,
                path: String::from_str(path),
                last_modified,
                content_hash: String::from_str(content_hash),
                indexed_at: now,
            };
            let res = store.upsert_artifact(&updated);
            match res {
                Ok(()) => {
                    proof {
                        let arts0 = old(store).artifacts();
                        let v = choose|v: int|
                            0 <= v < arts0.len() && #[trigger] arts0[v] == a@;
                        assert(arts0[v].id == updated@.id);
                        let u = choose|u: int|
                            0 <= u < arts0.len() && (#[trigger] arts0[u]).id == updated@.id
                                && final(store).artifacts() == arts0.update(u, updated@);
                        assert(!(u < v) && !(v < u));
                        assert(final(store).artifacts()[v] == updated@);
                        assert(has_current(final(store).artifacts(), path@, content_hash@));
                    }
                    Ok(Some(updated.id))
                },
                Err(_) => {
                    proof {
                        let arts0 = old(store).artifacts();
                        let v = choose|v: int|
                            0 <= v < arts0.len() && #[trigger] arts0[v] == a@;
                        let w = choose|w: int|
                            0 <= w < arts0.len() && (#[trigger] arts0[w]).path == updated@.path
                                && arts0[w].id != updated@.id;
                        assert(!(w < v) && !(v < w));
                        assert(false);
                    }
                    Err(IngestError::Database(String::from_str("path conflict")))
                },
            }
        },
        None => {
            let id = String::from_str(fresh_id);
            // the given id must not displace another path's record
            let all = store.get_all_artifacts();
            let n = all.len();
            let mut i: usize = 0;
            while i < n
                invariant
                    *store == *old(store),
                    old(store).wf(),
                    id@ == fresh_id@,
                    n == all.len(),
                    i <= n,
                    all.deep_view() == store.artifacts(),
                    forall|j: int|
                        0 <= j < i ==> (#[trigger] store.artifacts()[j]).id != id@,
                    forall|j: int|
                        0 <= j < store.artifacts().len() ==> (#[trigger] store.artifacts()[j]).path
                            != path@,
                decreases n - i,
            {
                proof {
                    assert(store.artifacts()[i as int] == all@[i as int]@);
                }
                if eq_str(all[i].id.as_str(), id.as_str()) {
                    proof {
                        assert(store.artifacts()[i as int].id == fresh_id@);
                    }
                    return Err(
                        IngestError::Database(String::from_str("fresh id already in use")),
                    );
                }
                i += 1;
            }
            let fresh = Artifact {
                id,
                path: String::from_str(path),
                last_modified,
                content_hash: String::from_str(content_hash),
                indexed_at: now,
            };
            let res = store.upsert_artifact(&fresh);
            match res {
                Ok(()) => {
                    proof {
                        assert(final(store).artifacts() == old(store).artifacts().push(fresh@));
                        let m = final(store).artifacts().len() - 1;
                        assert(final(store).artifacts()[m] == fresh@);
                        assert(has_current(final(store).artifacts(), path@, content_hash@));
                    }
                    Ok(Some(fresh.id))
                },
                Err(_) => {
                    proof {
                        assert(false);
                    }
                    Err(IngestError::Database(String::from_str("path conflict")))
                },
            }
        },
    }
}

/// Decides and applies the per-document ingestion step, drawing a fresh
/// random id in case the path is new. Whatever the draw produced,
/// `prepare_document_with_id` states the outcome exactly for that id; the
/// one failure is a drawn id already in use.
pub fn prepare_document(
    store: &mut Store,
    path: &str,
    content_hash: &str,
    last_modified: i64,
    now: i64,
) -> (r: Result<Option<String>, IngestError>)
    requires
        old(store).wf(),
    ensures
        final(store).wf(),
        final(store).messages() == old(store).messages(),
        final(store).next_message_id() == old(store).next_message_id(),
        has_current(old(store).artifacts(), path@, content_hash@) ==> r == Ok::<
            Option<String>,
            IngestError,
        >(None) && final(store).artifacts() == old(store).artifacts() && final(store).embeddings()
            == old(store).embeddings(),
        !has_current(old(store).artifacts(), path@, content_hash@) && (exists|i: int|
            0 <= i < old(store).artifacts().len() && (#[trigger] old(store).artifacts()[i]).path
                == path@) ==> (r matches Ok(Some(id)) && exists|i: int|
            0 <= i < old(store).artifacts().len() && (#[trigger] old(store).artifacts()[i]).path
                == path@ && id@ == old(store).artifacts()[i].id && final(store).artifacts() == old(store).artifacts().update(
                i,
                ArtifactModel {
                    id: old(store).artifacts()[i].id,
                    path: path@,
                    last_modified: last_modified,
                    content_hash: content_hash@,
                    indexed_at: now,
                },
            ) && final(store).embeddings() == old(store).embeddings().filter(
                keep_other_chunks(old(store).artifacts()[i].id),
            )),
        (forall|i: int|
            0 <= i < old(store).artifacts().len() ==> (#[trigger] old(store).artifacts()[i]).path
                != path@) && r is Ok ==> (r matches Ok(Some(id)) && id@.len() == 36
            && final(store).artifacts() == old(store).artifacts().push(
            ArtifactModel {
                id: id@,
                path: path@,
                last_modified: last_modified,
                content_hash: content_hash@,
                indexed_at: now,
            },
        ) && final(store).embeddings() == old(store).embeddings()),
        r is Err ==> final(store).artifacts() == old(store).artifacts() && final(store).embeddings() == old(store).embeddings() && (forall|i: int|
            0 <= i < old(store).artifacts().len() ==> (#[trigger] old(store).artifacts()[i]).path
                != path@) && (exists|j: int|
            0 <= j < old(store).artifacts().len() && (#[trigger] old(store).artifacts()[j]).id.len()
                == 36),
        r matches Ok(Some(id)) ==> has_current(
            final(store).artifacts(),
            path@,
            content_hash@,
        ) && (exists|i: int|
            0 <= i < final(store).artifacts().len() && (#[trigger] final(store).artifacts()[i]).path
                == path@ && final(store).artifacts()[i].id == id@),
{
    let fresh_id = fresh_artifact_id();
    prepare_document_with_id(store, path, content_hash, last_modified, now, fresh_id.as_str())
}

/// Attaches one embedded chunk to its document, in ordinal order. The
/// caller obtained the vector from one embedding request for this chunk.
pub fn attach_chunk(
    store: &mut Store,
    artifact_id: &str,
    index: usize,
    content: &str,
    vector: Vec<u32>,
) -> (r: Result<(), IngestError>)
    requires
        old(store).wf(),
        index <= 0x7fffffff,
    ensures
        final(store).wf(),
        final(store).artifacts() == old(store).artifacts(),
        final(store).messages() == old(store).messages(),
        final(store).next_message_id() == old(store).next_message_id(),
        r is Ok ==> final(store).embeddings() == old(store).embeddings().push(
            EmbeddingModel {
                id: chunk_id_of(artifact_id@, index as int),
                artifact_id: artifact_id@,
                chunk_index: index as i32,
                content: content@,
                embedding: vector@,
            },
        ),
        r is Err ==> final(store).embeddings() == old(store).embeddings() && (exists|i: int|
            0 <= i < old(store).embeddings().len() && (#[trigger] old(store).embeddings()[i]).id
                == chunk_id_of(artifact_id@, index as int)),
{
    let id = make_chunk_id(artifact_id, index);
    let record = Embedding {
        id,
        artifact_id: String::from_str(artifact_id),
        chunk_index: index as i32,
        content: String::from_str(content),
        embedding: vector,
    };
    match store.insert_embedding(&record) {
        Ok(()) => Ok(()),
        Err(_) => Err(IngestError::Database(String::from_str("duplicate chunk key"))),
    }
}

/// Idempotent ingestion: a successful indexing pass leaves the store
/// holding the document's path with its fingerprint, which is exactly the
/// condition under which `prepare_document` skips — writing nothing and
/// requesting no embeddings on the second pass.
pub proof fn lemma_unchanged_ingest_skips(
    arts: Seq<ArtifactModel>,
    path: Seq<char>,
    fp: Seq<char>,
    i: int,
)
    requires
        0 <= i < arts.len(),
        arts[i].path == path,
        arts[i].content_hash == fp,
    ensures
        has_current(arts, path, fp),
{
    assert(0 <= i < arts.len() && (#[trigger] arts[i]).path == path && arts[i].content_hash
        == fp);
}

} // verus!
