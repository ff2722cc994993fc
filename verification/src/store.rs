//! The record store: documents, chunk records with their embedding vectors,
//! and the conversation log, held as plain records with exact contracts.
//! Vector components are IEEE-754 bit patterns (`u32`), and the store fixes
//! their durable encoding: 4 little-endian bytes per component, in order.

use vstd::bytes::{
    lemma_auto_spec_u32_to_from_le_bytes, spec_u32_from_le_bytes, spec_u32_to_le_bytes,
    u32_from_le_bytes, u32_to_le_bytes,
};
use vstd::prelude::*;
use vstd::slice::slice_subrange;

verus! {

/// One indexed document: a unique path, a stable opaque id, timestamps and
/// the fingerprint its chunks were built from.
#[derive(Debug, Clone)]
pub struct Artifact {
    /// System-generated opaque id, stable across re-indexing.
    pub id: String,
    /// The caller-supplied logical path; at most one live record per path.
    pub path: String,
    /// Last-modified timestamp of the source, in seconds.
    pub last_modified: i64,
    /// Fingerprint of the raw content at indexing time.
    pub content_hash: String,
    /// When the document was last indexed, in seconds.
    pub indexed_at: i64,
}

/// The ghost model of an `Artifact`.
pub struct ArtifactModel {
    /// See `Artifact::id`.
    pub id: Seq<char>,
    /// See `Artifact::path`.
    pub path: Seq<char>,
    /// See `Artifact::last_modified`.
    pub last_modified: i64,
    /// See `Artifact::content_hash`.
    pub content_hash: Seq<char>,
    /// See `Artifact::indexed_at`.
    pub indexed_at: i64,
}

impl View for Artifact {
    type V = ArtifactModel;

    open spec fn view(&self) -> ArtifactModel {
        ArtifactModel {
            id: self.id@,
            path: self.path@,
            last_modified: self.last_modified,
            content_hash: self.content_hash@,
            indexed_at: self.indexed_at,
        }
    }
}

impl DeepView for Artifact {
    type V = ArtifactModel;

    open spec fn deep_view(&self) -> ArtifactModel {
        self.view()
    }
}

/// One retrievable chunk of a document, with its embedding vector held as
/// IEEE-754 bit patterns.
#[derive(Debug, Clone)]
pub struct Embedding {
    /// The chunk's own key: its document id and ordinal, joined by `#`.
    pub id: String,
    /// The owning document's id.
    pub artifact_id: String,
    /// The 0-based ordinal of this chunk within its document.
    pub chunk_index: i32,
    /// The chunk's text.
    pub content: String,
    /// The embedding vector, one `u32` bit pattern per component.
    pub embedding: Vec<u32>,
}

/// The ghost model of an `Embedding`.
pub struct EmbeddingModel {
    /// See `Embedding::id`.
    pub id: Seq<char>,
    /// See `Embedding::artifact_id`.
    pub artifact_id: Seq<char>,
    /// See `Embedding::chunk_index`.
    pub chunk_index: i32,
    /// See `Embedding::content`.
    pub content: Seq<char>,
    /// See `Embedding::embedding`.
    pub embedding: Seq<u32>,
}

impl View for Embedding {
    type V = EmbeddingModel;

    open spec fn view(&self) -> EmbeddingModel {
        EmbeddingModel {
            id: self.id@,
            artifact_id: self.artifact_id@,
            chunk_index: self.chunk_index,
            content: self.content@,
            embedding: self.embedding@,
        }
    }
}

impl DeepView for Embedding {
    type V = EmbeddingModel;

    open spec fn deep_view(&self) -> EmbeddingModel {
        self.view()
    }
}

/// One message of the conversation log.
#[derive(Debug, Clone)]
pub struct ChatMessage {
    /// Monotonically increasing id.
    pub id: i64,
    /// The speaker: `user` or `assistant`.
    pub role: String,
    /// The message text.
    pub content: String,
    /// When the message was recorded, in seconds.
    pub timestamp: i64,
}

/// The ghost model of a `ChatMessage`.
pub struct ChatMessageModel {
    /// See `ChatMessage::id`.
    pub id: i64,
    /// See `ChatMessage::role`.
    pub role: Seq<char>,
    /// See `ChatMessage::content`.
    pub content: Seq<char>,
    /// See `ChatMessage::timestamp`.
    pub timestamp: i64,
}

impl View for ChatMessage {
    type V = ChatMessageModel;

    open spec fn view(&self) -> ChatMessageModel {
        ChatMessageModel {
            id: self.id,
            role: self.role@,
            content: self.content@,
            timestamp: self.timestamp,
        }
    }
}

impl DeepView for ChatMessage {
    type V = ChatMessageModel;

    open spec fn deep_view(&self) -> ChatMessageModel {
        self.view()
    }
}

/// Endpoint and model selection for the embedding and generation backends,
/// and the indexing root.
#[derive(Debug, Clone)]
pub struct Settings {
    /// The directory whose markdown files are indexed.
    pub vault_path: String,
    /// Base URL of the generation and embedding backend.
    pub ollama_endpoint: String,
    /// Model name used for generation.
    pub ollama_model: String,
    /// Model name used for embeddings.
    pub embedding_model: String,
}

impl Default for Settings {
    /// The built-in defaults: a local backend and no indexing root.
    fn default() -> (r: Settings)
        ensures
            r.vault_path@ == Seq::<char>::empty(),
            r.ollama_endpoint@ == "http://localhost:11434"@,
            r.ollama_model@ == "llama3.2"@,
            r.embedding_model@ == "nomic-embed-text"@,
    {
        Settings {
            vault_path: String::new(),
            ollama_endpoint: String::from_str("http://localhost:11434"),
            ollama_model: String::from_str("llama3.2"),
            embedding_model: String::from_str("nomic-embed-text"),
        }
    }
}

/// The durable encoding of a vector: each component as 4 little-endian
/// bytes, concatenated in order.
pub open spec fn vector_bytes(v: Seq<u32>) -> Seq<u8>
    decreases v.len(),
{
    if v.len() == 0 {
        Seq::empty()
    } else {
        spec_u32_to_le_bytes(v[0]) + vector_bytes(v.drop_first())
    }
}

/// The vector a byte string decodes to: one component per full group of 4
/// bytes; a trailing partial group is ignored.
pub open spec fn bytes_vector(b: Seq<u8>) -> Seq<u32>
    decreases b.len(),
{
    if b.len() < 4 {
        Seq::empty()
    } else {
        seq![spec_u32_from_le_bytes(b.subrange(0, 4))] + bytes_vector(
            b.subrange(4, b.len() as int),
        )
    }
}

/// Encodes an embedding vector for durable storage.
pub fn embedding_to_bytes(v: &Vec<u32>) -> (r: Vec<u8>)
    ensures
        r@ == vector_bytes(v@),
{
    let n = v.len();
    let mut r: Vec<u8> = Vec::new();
    let mut i: usize = 0;
    proof {
        assert(v@.subrange(0, n as int) =~= v@);
        lemma_auto_spec_u32_to_from_le_bytes();
    }
    while i < n
        invariant
            n == v.len(),
            i <= n,
            r@ + vector_bytes(v@.subrange(i as int, n as int)) == vector_bytes(v@),
        decreases n - i,
    {
        let ghost rem = v@.subrange(i as int, n as int);
        let ghost pre = r@;
        proof {
            assert(rem.drop_first() =~= v@.subrange(i + 1, n as int));
        }
        let mut group = u32_to_le_bytes(v[i]);
        r.append(&mut group);
        i += 1;
        proof {
            assert(r@ + vector_bytes(v@.subrange(i as int, n as int)) =~= pre + vector_bytes(rem));
        }
    }
    proof {
        assert(vector_bytes(v@.subrange(n as int, n as int)) =~= Seq::<u8>::empty());
        assert(r@ + Seq::<u8>::empty() =~= r@);
    }
    r
}

/// Decodes a durably stored embedding vector.
pub fn bytes_to_embedding(b: &Vec<u8>) -> (r: Vec<u32>)
    ensures
        r@ == bytes_vector(b@),
{
    let n = b.len();
    let mut r: Vec<u32> = Vec::new();
    let mut i: usize = 0;
    proof {
        assert(b@.subrange(0, n as int) =~= b@);
    }
    while n - i >= 4
        invariant
            n == b.len(),
            i <= n,
            r@ + bytes_vector(b@.subrange(i as int, n as int)) == bytes_vector(b@),
        decreases n - i,
    {
        let ghost rem = b@.subrange(i as int, n as int);
        let ghost pre = r@;
        proof {
            assert(rem.subrange(0, 4) =~= b@.subrange(i as int, i + 4));
            assert(rem.subrange(4, rem.len() as int) =~= b@.subrange(i + 4, n as int));
        }
        let group = slice_subrange(b.as_slice(), i, i + 4);
        let x = u32_from_le_bytes(group);
        r.push(x);
        i += 4;
        proof {
            assert(r@ =~= pre.push(x));
            assert(pre.push(x) + bytes_vector(b@.subrange(i as int, n as int)) =~= pre + (seq![x]
                + bytes_vector(b@.subrange(i as int, n as int))));
        }
    }
    proof {
        assert(bytes_vector(b@.subrange(i as int, n as int)) =~= Seq::<u32>::empty());
        assert(r@ + Seq::<u32>::empty() =~= r@);
    }
    r
}

/// The encoding round-trips bit for bit: decoding an encoded vector yields
/// the vector back.
pub proof fn lemma_vector_round_trip(v: Seq<u32>)
    ensures
        bytes_vector(vector_bytes(v)) == v,
    decreases v.len(),
{
    lemma_auto_spec_u32_to_from_le_bytes();
    if v.len() == 0 {
        assert(bytes_vector(vector_bytes(v)) =~= v);
    } else {
        let bs = vector_bytes(v);
        assert(bs == spec_u32_to_le_bytes(v[0]) + vector_bytes(v.drop_first()));
        assert(bs.len() >= 4);
        assert(bs.subrange(0, 4) =~= spec_u32_to_le_bytes(v[0]));
        assert(bs.subrange(4, bs.len() as int) =~= vector_bytes(v.drop_first()));
        lemma_vector_round_trip(v.drop_first());
        assert(bytes_vector(bs) =~= v);
    }
}

/// A store operation failure.
#[derive(Debug, Clone, PartialEq, Eq, Structural)]
pub enum StoreError {
    /// A fresh document id was given for a path that is already keyed by a
    /// different id: the path uniqueness rule refuses the write.
    PathConflict,
    /// A chunk with the same key is already stored.
    DuplicateChunk,
    /// The conversation log cannot mint a further message id.
    MessageIdsExhausted,
}

/// The record store: documents, chunk records and the conversation log.
/// Every operation is atomic at the single-operation granularity and comes
/// with an exact contract over the store's ghost model.
pub struct Store {
    artifacts: Vec<Artifact>,
    embeddings: Vec<Embedding>,
    messages: Vec<ChatMessage>,
    next_message_id: i64,
}

/// Keeps the documents not keyed by `id`.
pub open spec fn keep_other_ids(id: Seq<char>) -> spec_fn(ArtifactModel) -> bool {
    |a: ArtifactModel| a.id != id
}

/// First message key is `msg_le`-least when ids increase with position.
pub open spec fn msg_le(a: ChatMessageModel, b: ChatMessageModel) -> bool {
    a.timestamp < b.timestamp || (a.timestamp == b.timestamp && a.id <= b.id)
}

impl Store {
    /// The documents on record, in insertion order.
    pub closed spec fn artifacts(&self) -> Seq<ArtifactModel> {
        self.artifacts.deep_view()
    }

    /// The chunk records, in insertion order.
    pub closed spec fn embeddings(&self) -> Seq<EmbeddingModel> {
        self.embeddings.deep_view()
    }

    /// The conversation log, in insertion order.
    pub closed spec fn messages(&self) -> Seq<ChatMessageModel> {
        self.messages.deep_view()
    }

    /// The next id the conversation log will mint.
    pub closed spec fn next_message_id(&self) -> i64 {
        self.next_message_id
    }

    /// Well-formedness: paths and ids of documents are unique, chunk keys
    /// are unique, and message ids increase with position and stay below the
    /// next id to mint.
    pub open spec fn wf(&self) -> bool {
        &&& forall|i: int, j: int|
            0 <= i < j < self.artifacts().len() ==> (#[trigger] self.artifacts()[i]).path != (
            #[trigger] self.artifacts()[j]).path && self.artifacts()[i].id
                != self.artifacts()[j].id
        &&& forall|i: int, j: int|
            0 <= i < j < self.embeddings().len() ==> (#[trigger] self.embeddings()[i]).id != (
            #[trigger] self.embeddings()[j]).id
        &&& forall|i: int, j: int|
            0 <= i < j < self.messages().len() ==> (#[trigger] self.messages()[i]).id < (
            #[trigger] self.messages()[j]).id
        &&& forall|i: int|
            0 <= i < self.messages().len() ==> (#[trigger] self.messages()[i]).id
                < self.next_message_id()
    }

    /// An empty store.
    pub fn new() -> (r: Store)
        ensures
            r.wf(),
            r.artifacts() == Seq::<ArtifactModel>::empty(),
            r.embeddings() == Seq::<EmbeddingModel>::empty(),
            r.messages() == Seq::<ChatMessageModel>::empty(),
            r.next_message_id() == 1,
    {
        let r = Store {
            artifacts: Vec::new(),
            embeddings: Vec::new(),
            messages: Vec::new(),
            next_message_id: 1,
        };
        proof {
            assert(r.artifacts() =~= Seq::<ArtifactModel>::empty());
            assert(r.embeddings() =~= Seq::<EmbeddingModel>::empty());
            assert(r.messages() =~= Seq::<ChatMessageModel>::empty());
        }
        r
    }

    /// Writes a document record. A record keyed by the same id is replaced
    /// in place; appending or replacing is refused when it would leave two
    /// records with one path.
    pub fn upsert_artifact(&mut self, artifact: &Artifact) -> (r: Result<(), StoreError>)
        requires
            old(self).wf(),
        ensures
            final(self).wf(),
            final(self).embeddings() == old(self).embeddings(),
            final(self).messages() == old(self).messages(),
            final(self).next_message_id() == old(self).next_message_id(),
            r is Err ==> final(self).artifacts() == old(self).artifacts() && r == Err::<
                (),
                StoreError,
            >(StoreError::PathConflict) && exists|j: int|
                0 <= j < old(self).artifacts().len() && (#[trigger] old(self).artifacts()[j]).path
                    == artifact@.path && old(self).artifacts()[j].id != artifact@.id,
            (forall|j: int|
                0 <= j < old(self).artifacts().len() ==> ((#[trigger] old(
                    self,
                ).artifacts()[j]).path == artifact@.path ==> old(self).artifacts()[j].id
                    == artifact@.id)) ==> r is Ok,
            r is Ok && (exists|i: int|
                0 <= i < old(self).artifacts().len() && (#[trigger] old(self).artifacts()[i]).id
                    == artifact@.id) ==> exists|i: int|
                0 <= i < old(self).artifacts().len() && (#[trigger] old(self).artifacts()[i]).id
                    == artifact@.id && final(self).artifacts() == old(self).artifacts().update(
                    i,
                    artifact@,
                ),
            r is Ok && (forall|i: int|
                0 <= i < old(self).artifacts().len() ==> (#[trigger] old(self).artifacts()[i]).id
                    != artifact@.id) ==> final(self).artifacts() == old(self).artifacts().push(
                artifact@,
            ),
    {
        let n = self.artifacts.len();
        // refuse any write that would duplicate the path under another id
        let mut j: usize = 0;
        while j < n
            invariant
                *self == *old(self),
                old(self).wf(),
                n == self.artifacts.len(),
                j <= n,
                forall|k: int|
                    0 <= k < j ==> ((#[trigger] self.artifacts.deep_view()[k]).path
                        == artifact@.path ==> self.artifacts.deep_view()[k].id == artifact@.id),
            decreases n - j,
        {
            proof {
                assert(self.artifacts.deep_view()[j as int] == self.artifacts@[j as int]@);
            }
            if crate::text::eq_str(self.artifacts[j].path.as_str(), artifact.path.as_str())
                && !crate::text::eq_str(self.artifacts[j].id.as_str(), artifact.id.as_str()) {
                return Err(StoreError::PathConflict);
            }
            j += 1;
        }
        let mut i: usize = 0;
        while i < n
            invariant
                *self == *old(self),
                old(self).wf(),
                n == self.artifacts.len(),
                i <= n,
                forall|k: int|
                    0 <= k < n ==> ((#[trigger] self.artifacts.deep_view()[k]).path
                        == artifact@.path ==> self.artifacts.deep_view()[k].id == artifact@.id),
                forall|k: int|
                    0 <= k < i ==> (#[trigger] self.artifacts.deep_view()[k]).id != artifact@.id,
            decreases n - i,
        {
            proof {
                assert(self.artifacts.deep_view()[i as int] == self.artifacts@[i as int]@);
            }
            if crate::text::eq_str(self.artifacts[i].id.as_str(), artifact.id.as_str()) {
                let ghost pre = self.artifacts.deep_view();
                let replacement = clone_artifact(artifact);
                self.artifacts.set(i, replacement);
                proof {
                    assert(self.artifacts.deep_view() =~= pre.update(i as int, artifact@));
                    let upd = pre.update(i as int, artifact@);
                    assert(pre == old(self).artifacts());
                    assert forall|a: int, b: int|
                        0 <= a < b < upd.len() implies (#[trigger] upd[a]).path != (
                    #[trigger] upd[b]).path && upd[a].id != upd[b].id by {
                        if a != i && b != i {
                            assert(old(self).artifacts()[a].path != old(self).artifacts()[b].path
                                && old(self).artifacts()[a].id != old(self).artifacts()[b].id);
                            assert(upd[a] == pre[a] && upd[b] == pre[b]);
                        } else if a == i {
                            assert(old(self).artifacts()[a].id != old(self).artifacts()[b].id);
                            assert(upd[b] == pre[b]);
                            assert(pre[i as int].id == artifact@.id);
                            assert(pre[b].id != artifact@.id);
                            assert(pre[b].path == artifact@.path ==> pre[b].id == artifact@.id);
                        } else {
                            assert(old(self).artifacts()[a].id != old(self).artifacts()[b].id);
                            assert(upd[a] == pre[a]);
                            assert(pre[i as int].id == artifact@.id);
                            assert(pre[a].id != artifact@.id);
                            assert(pre[a].path == artifact@.path ==> pre[a].id == artifact@.id);
                        }
                    }
                    assert(self.artifacts() == upd);
                    assert(forall|a: int, b: int|
                        0 <= a < b < self.artifacts().len() ==> ((#[trigger] self.artifacts()[a]).path
                            != (#[trigger] self.artifacts()[b]).path && self.artifacts()[a].id
                            != self.artifacts()[b].id));
                    assert(self.embeddings() == old(self).embeddings());
                    assert(self.messages() == old(self).messages());
                    assert(forall|a: int, b: int|
                        0 <= a < b < self.embeddings().len() ==> (#[trigger] self.embeddings()[a]).id
                            != (#[trigger] self.embeddings()[b]).id);
                    assert(forall|a: int, b: int|
                        0 <= a < b < self.messages().len() ==> (#[trigger] self.messages()[a]).id < (
                        #[trigger] self.messages()[b]).id);
                    assert(forall|a: int|
                        0 <= a < self.messages().len() ==> (#[trigger] self.messages()[a]).id
                            < self.next_message_id());
                    assert(self.wf());
                }
                return Ok(());
            }
            i += 1;
        }
        let ghost pre = self.artifacts.deep_view();
        let fresh = clone_artifact(artifact);
        self.artifacts.push(fresh);
        proof {
            assert(self.artifacts.deep_view() =~= pre.push(artifact@));
            let ext = pre.push(artifact@);
            assert(pre == old(self).artifacts());
            assert forall|a: int, b: int|
                0 <= a < b < ext.len() implies (#[trigger] ext[a]).path != (#[trigger] ext[b]).path
                && ext[a].id != ext[b].id by {
                if b < ext.len() - 1 {
                    assert(old(self).artifacts()[a].path != old(self).artifacts()[b].path && old(
                        self,
                    ).artifacts()[a].id != old(self).artifacts()[b].id);
                    assert(ext[a] == pre[a] && ext[b] == pre[b]);
                } else {
                    assert(ext[b] == artifact@);
                    assert(ext[a] == pre[a]);
                    assert(pre[a].id != artifact@.id);
                    assert(pre[a].path == artifact@.path ==> pre[a].id == artifact@.id);
                }
            }
            assert(self.artifacts() == ext);
            assert(forall|a: int, b: int|
                0 <= a < b < self.artifacts().len() ==> ((#[trigger] self.artifacts()[a]).path
                    != (#[trigger] self.artifacts()[b]).path && self.artifacts()[a].id
                    != self.artifacts()[b].id));
            assert(self.embeddings() == old(self).embeddings());
            assert(self.messages() == old(self).messages());
            assert(forall|a: int, b: int|
                0 <= a < b < self.embeddings().len() ==> (#[trigger] self.embeddings()[a]).id
                    != (#[trigger] self.embeddings()[b]).id);
            assert(forall|a: int, b: int|
                0 <= a < b < self.messages().len() ==> (#[trigger] self.messages()[a]).id < (
                #[trigger] self.messages()[b]).id);
            assert(forall|a: int|
                0 <= a < self.messages().len() ==> (#[trigger] self.messages()[a]).id
                    < self.next_message_id());
            assert(self.wf());
        }
        Ok(())
    }

    /// Looks a document up by its path; `None` when no record holds it.
    pub fn get_artifact_by_path(&self, path: &str) -> (r: Option<Artifact>)
        requires
            self.wf(),
        ensures
            r matches Some(a) ==> a.path@ == path@ && (exists|i: int|
                0 <= i < self.artifacts().len() && #[trigger] self.artifacts()[i] == a@),
            r is None ==> forall|i: int|
                0 <= i < self.artifacts().len() ==> (#[trigger] self.artifacts()[i]).path != path@,
    {
        let n = self.artifacts.len();
        let mut i: usize = 0;
        while i < n
            invariant
                n == self.artifacts.len(),
                i <= n,
                forall|j: int|
                    0 <= j < i ==> (#[trigger] self.artifacts.deep_view()[j]).path != path@,
            decreases n - i,
        {
            proof {
                assert(self.artifacts.deep_view()[i as int] == self.artifacts@[i as int]@);
            }
            if crate::text::eq_str(self.artifacts[i].path.as_str(), path) {
                let found = clone_artifact(&self.artifacts[i]);
                proof {
                    assert(self.artifacts()[i as int] == found@);
                }
                return Some(found);
            }
            i += 1;
        }
        None
    }

    /// All document records, in insertion order.
    pub fn get_all_artifacts(&self) -> (r: Vec<Artifact>)
        ensures
            r.deep_view() == self.artifacts(),
    {
        let n = self.artifacts.len();
        let mut r: Vec<Artifact> = Vec::new();
        let mut i: usize = 0;
        while i < n
            invariant
                n == self.artifacts.len(),
                i <= n,
                r.deep_view() == self.artifacts.deep_view().subrange(0, i as int),
            decreases n - i,
        {
            let ghost pre = r.deep_view();
            let a = clone_artifact(&self.artifacts[i]);
            r.push(a);
            i += 1;
            proof {
                assert(r.deep_view() =~= pre.push(self.artifacts@[i - 1]@));
                assert(self.artifacts.deep_view().subrange(0, i as int) =~= pre.push(
                    self.artifacts.deep_view()[i - 1],
                ));
            }
        }
        proof {
            assert(self.artifacts.deep_view().subrange(0, n as int) =~= self.artifacts.deep_view());
        }
        r
    }

    /// Deletes the document keyed by `id`, leaving its chunks to the caller,
    /// as the explicit-removal path does.
    pub fn delete_artifact(&mut self, id: &str)
        requires
            old(self).wf(),
        ensures
            final(self).wf(),
            final(self).artifacts() == old(self).artifacts().filter(keep_other_ids(id@)),
            final(self).embeddings() == old(self).embeddings(),
            final(self).messages() == old(self).messages(),
            final(self).next_message_id() == old(self).next_message_id(),
    {
        let n = self.artifacts.len();
        let mut kept: Vec<Artifact> = Vec::new();
        let mut i: usize = 0;
        proof {
            assert(self.artifacts.deep_view().subrange(0, 0) =~= Seq::<ArtifactModel>::empty());
            assert(Seq::<ArtifactModel>::empty().filter(keep_other_ids(id@))
                =~= Seq::<ArtifactModel>::empty()) by {
                reveal(Seq::filter);
            }
            assert(kept.deep_view() =~= Seq::<ArtifactModel>::empty().filter(keep_other_ids(id@)));
        }
        while i < n
            invariant
                *self == *old(self),
                old(self).wf(),
                n == self.artifacts.len(),
                i <= n,
                kept.deep_view() == self.artifacts.deep_view().subrange(0, i as int).filter(
                    keep_other_ids(id@),
                ),
            decreases n - i,
        {
            let ghost pre = self.artifacts.deep_view().subrange(0, i as int);
            let ghost cur = self.artifacts.deep_view()[i as int];
            proof {
                assert(cur == self.artifacts@[i as int]@);
                assert(self.artifacts.deep_view().subrange(0, i + 1) =~= pre.push(cur));
                pre.lemma_filter_push(cur, keep_other_ids(id@));
                assert(keep_other_ids(id@)(cur) == (cur.id != id@));
                assert(pre.push(cur).filter(keep_other_ids(id@)) == (if cur.id != id@ {
                    pre.filter(keep_other_ids(id@)).push(cur)
                } else {
                    pre.filter(keep_other_ids(id@))
                }));
            }
            let ghost prek = kept.deep_view();
            if !crate::text::eq_str(self.artifacts[i].id.as_str(), id) {
                let a = clone_artifact(&self.artifacts[i]);
                kept.push(a);
                proof {
                    assert(kept.deep_view() =~= prek.push(cur));
                }
            }
            i += 1;
        }
        proof {
            assert(self.artifacts.deep_view().subrange(0, n as int) =~= self.artifacts.deep_view());
        }
        self.artifacts = kept;
        proof {
            lemma_filter_keeps_uniqueness(old(self).artifacts(), keep_other_ids(id@));
            let flt = old(self).artifacts().filter(keep_other_ids(id@));
            assert(self.artifacts() == flt);
            assert(forall|a: int, b: int|
                0 <= a < b < self.artifacts().len() ==> ((#[trigger] self.artifacts()[a]).path
                    != (#[trigger] self.artifacts()[b]).path && self.artifacts()[a].id
                    != self.artifacts()[b].id)) by {
                assert(forall|a: int, b: int|
                    0 <= a < b < flt.len() ==> ((#[trigger] flt[a]).path != (#[trigger] flt[b]).path
                        && flt[a].id != flt[b].id));
            }
            assert(self.embeddings() == old(self).embeddings());
            assert(self.messages() == old(self).messages());
            assert(forall|a: int, b: int|
                0 <= a < b < self.embeddings().len() ==> (#[trigger] self.embeddings()[a]).id
                    != (#[trigger] self.embeddings()[b]).id);
            assert(forall|a: int, b: int|
                0 <= a < b < self.messages().len() ==> (#[trigger] self.messages()[a]).id < (
                #[trigger] self.messages()[b]).id);
            assert(forall|a: int|
                0 <= a < self.messages().len() ==> (#[trigger] self.messages()[a]).id
                    < self.next_message_id());
            assert(self.wf());
        }
    }

    /// Deletes the document at `path` together with all of its chunks: the
    /// cascading removal path.
    pub fn delete_artifact_by_path(&mut self, path: &str)
        requires
            old(self).wf(),
        ensures
            final(self).wf(),
            final(self).artifacts() == old(self).artifacts().filter(keep_other_paths(path@)),
            final(self).embeddings() == old(self).embeddings().filter(
                keep_chunks_not_at_path(old(self).artifacts(), path@),
            ),
            final(self).messages() == old(self).messages(),
            final(self).next_message_id() == old(self).next_message_id(),
    {
        let ghost arts0 = self.artifacts.deep_view();
        let ghost pred_e = keep_chunks_not_at_path(arts0, path@);
        let ne = self.embeddings.len();
        let mut kept_e: Vec<Embedding> = Vec::new();
        let mut i: usize = 0;
        proof {
            assert(self.embeddings.deep_view().subrange(0, 0) =~= Seq::<EmbeddingModel>::empty());
            assert(Seq::<EmbeddingModel>::empty().filter(pred_e) =~= Seq::<EmbeddingModel>::empty())
                by {
                reveal(Seq::filter);
            }
            assert(kept_e.deep_view() =~= Seq::<EmbeddingModel>::empty().filter(pred_e));
        }
        while i < ne
            invariant
                *self == *old(self),
                old(self).wf(),
                arts0 == self.artifacts.deep_view(),
                pred_e == keep_chunks_not_at_path(arts0, path@),
                ne == self.embeddings.len(),
                i <= ne,
                kept_e.deep_view() == self.embeddings.deep_view().subrange(0, i as int).filter(
                    pred_e,
                ),
            decreases ne - i,
        {
            let ghost pre = self.embeddings.deep_view().subrange(0, i as int);
            let ghost cur = self.embeddings.deep_view()[i as int];
            proof {
                assert(cur == self.embeddings@[i as int]@);
                assert(self.embeddings.deep_view().subrange(0, i + 1) =~= pre.push(cur));
                pre.lemma_filter_push(cur, pred_e);
            }
            // does some record at `path` own this chunk?
            let na = self.artifacts.len();
            let mut owned = false;
            let mut k: usize = 0;
            while k < na
                invariant
                    *self == *old(self),
                    arts0 == self.artifacts.deep_view(),
                    na == self.artifacts.len(),
                    i < self.embeddings.len(),
                    cur == self.embeddings.deep_view()[i as int],
                    k <= na,
                    owned <==> exists|w: int|
                        0 <= w < k && (#[trigger] arts0[w]).path == path@ && arts0[w].id
                            == cur.artifact_id,
                decreases na - k,
            {
                proof {
                    assert(arts0[k as int] == self.artifacts@[k as int]@);
                }
                if crate::text::eq_str(self.artifacts[k].path.as_str(), path)
                    && crate::text::eq_str(
                    self.artifacts[k].id.as_str(),
                    self.embeddings[i].artifact_id.as_str(),
                ) {
                    owned = true;
                }
                k += 1;
            }
            let ghost prek = kept_e.deep_view();
            proof {
                assert(pred_e(cur) == !owned);
            }
            if !owned {
                let e = clone_embedding(&self.embeddings[i]);
                kept_e.push(e);
                proof {
                    assert(kept_e.deep_view() =~= prek.push(cur));
                }
            }
            i += 1;
        }
        proof {
            assert(self.embeddings.deep_view().subrange(0, ne as int) =~= self.embeddings
                .deep_view());
        }
        self.embeddings = kept_e;
        // now remove the document records themselves
        let na = self.artifacts.len();
        let mut kept_a: Vec<Artifact> = Vec::new();
        let mut j: usize = 0;
        proof {
            assert(self.artifacts.deep_view().subrange(0, 0) =~= Seq::<ArtifactModel>::empty());
            assert(Seq::<ArtifactModel>::empty().filter(keep_other_paths(path@))
                =~= Seq::<ArtifactModel>::empty()) by {
                reveal(Seq::filter);
            }
            assert(kept_a.deep_view() =~= Seq::<ArtifactModel>::empty().filter(
                keep_other_paths(path@),
            ));
        }
        while j < na
            invariant
                old(self).wf(),
                self.artifacts == old(self).artifacts,
                self.messages == old(self).messages,
                self.next_message_id == old(self).next_message_id,
                self.embeddings.deep_view() == old(self).embeddings().filter(
                    keep_chunks_not_at_path(old(self).artifacts(), path@),
                ),
                na == self.artifacts.len(),
                j <= na,
                kept_a.deep_view() == self.artifacts.deep_view().subrange(0, j as int).filter(
                    keep_other_paths(path@),
                ),
            decreases na - j,
        {
            let ghost pre = self.artifacts.deep_view().subrange(0, j as int);
            let ghost cur = self.artifacts.deep_view()[j as int];
            proof {
                assert(cur == self.artifacts@[j as int]@);
                assert(self.artifacts.deep_view().subrange(0, j + 1) =~= pre.push(cur));
                pre.lemma_filter_push(cur, keep_other_paths(path@));
                assert(keep_other_paths(path@)(cur) == (cur.path != path@));
            }
            let ghost prek = kept_a.deep_view();
            if !crate::text::eq_str(self.artifacts[j].path.as_str(), path) {
                let a = clone_artifact(&self.artifacts[j]);
                kept_a.push(a);
                proof {
                    assert(kept_a.deep_view() =~= prek.push(cur));
                }
            }
            j += 1;
        }
        proof {
            assert(self.artifacts.deep_view().subrange(0, na as int) =~= self.artifacts
                .deep_view());
        }
        self.artifacts = kept_a;
        proof {
            lemma_filter_keeps_uniqueness(old(self).artifacts(), keep_other_paths(path@));
            lemma_filter_keeps_chunk_uniqueness(
                old(self).embeddings(),
                keep_chunks_not_at_path(old(self).artifacts(), path@),
            );
            let flt = old(self).artifacts().filter(keep_other_paths(path@));
            assert(self.artifacts() == flt);
            assert(forall|a: int, b: int|
                0 <= a < b < self.artifacts().len() ==> ((#[trigger] self.artifacts()[a]).path
                    != (#[trigger] self.artifacts()[b]).path && self.artifacts()[a].id
                    != self.artifacts()[b].id)) by {
                assert(forall|a: int, b: int|
                    0 <= a < b < flt.len() ==> ((#[trigger] flt[a]).path != (#[trigger] flt[b]).path
                        && flt[a].id != flt[b].id));
            }
            let flte = old(self).embeddings().filter(
                keep_chunks_not_at_path(old(self).artifacts(), path@),
            );
            assert(self.embeddings() == flte);
            assert(forall|a: int, b: int|
                0 <= a < b < self.embeddings().len() ==> (#[trigger] self.embeddings()[a]).id != (
                #[trigger] self.embeddings()[b]).id) by {
                assert(forall|a: int, b: int|
                    0 <= a < b < flte.len() ==> (#[trigger] flte[a]).id != (#[trigger] flte[b]).id);
            }
            assert(self.messages() == old(self).messages());
            assert(forall|a: int, b: int|
                0 <= a < b < self.messages().len() ==> (#[trigger] self.messages()[a]).id < (
                #[trigger] self.messages()[b]).id);
            assert(forall|a: int|
                0 <= a < self.messages().len() ==> (#[trigger] self.messages()[a]).id
                    < self.next_message_id());
            assert(self.wf());
        }
    }

    /// Inserts one chunk record; a record under the same key is refused.
    pub fn insert_embedding(&mut self, embedding: &Embedding) -> (r: Result<(), StoreError>)
        requires
            old(self).wf(),
        ensures
            final(self).wf(),
            final(self).artifacts() == old(self).artifacts(),
            final(self).messages() == old(self).messages(),
            final(self).next_message_id() == old(self).next_message_id(),
            (exists|i: int|
                0 <= i < old(self).embeddings().len() && (#[trigger] old(self).embeddings()[i]).id
                    == embedding@.id) ==> r == Err::<(), StoreError>(StoreError::DuplicateChunk)
                && final(self).embeddings() == old(self).embeddings(),
            (forall|i: int|
                0 <= i < old(self).embeddings().len() ==> (#[trigger] old(self).embeddings()[i]).id
                    != embedding@.id) ==> r is Ok && final(self).embeddings() == old(
                self,
            ).embeddings().push(embedding@),
    {
        let n = self.embeddings.len();
        let mut i: usize = 0;
        while i < n
            invariant
                *self == *old(self),
                old(self).wf(),
                n == self.embeddings.len(),
                i <= n,
                forall|j: int|
                    0 <= j < i ==> (#[trigger] self.embeddings.deep_view()[j]).id != embedding@.id,
            decreases n - i,
        {
            proof {
                assert(self.embeddings.deep_view()[i as int] == self.embeddings@[i as int]@);
            }
            if crate::text::eq_str(self.embeddings[i].id.as_str(), embedding.id.as_str()) {
                return Err(StoreError::DuplicateChunk);
            }
            i += 1;
        }
        let ghost pre = self.embeddings.deep_view();
        let fresh = clone_embedding(embedding);
        self.embeddings.push(fresh);
        proof {
            assert(self.embeddings.deep_view() =~= pre.push(embedding@));
            let ext = pre.push(embedding@);
            assert(pre == old(self).embeddings());
            assert forall|a: int, b: int| 0 <= a < b < ext.len() implies (#[trigger] ext[a]).id != (
            #[trigger] ext[b]).id by {
                if b < ext.len() - 1 {
                    assert(old(self).embeddings()[a].id != old(self).embeddings()[b].id);
                    assert(ext[a] == pre[a] && ext[b] == pre[b]);
                } else {
                    assert(ext[b] == embedding@);
                    assert(ext[a] == pre[a]);
                    assert(pre[a].id != embedding@.id);
                }
            }
            assert(self.embeddings() == ext);
            assert(forall|a: int, b: int|
                0 <= a < b < self.embeddings().len() ==> (#[trigger] self.embeddings()[a]).id != (
                #[trigger] self.embeddings()[b]).id);
            assert(self.artifacts() == old(self).artifacts());
            assert(self.messages() == old(self).messages());
            assert(forall|a: int, b: int|
                0 <= a < b < self.artifacts().len() ==> ((#[trigger] self.artifacts()[a]).path != (
                #[trigger] self.artifacts()[b]).path && self.artifacts()[a].id
                    != self.artifacts()[b].id));
            assert(forall|a: int, b: int|
                0 <= a < b < self.messages().len() ==> (#[trigger] self.messages()[a]).id < (
                #[trigger] self.messages()[b]).id);
            assert(forall|a: int|
                0 <= a < self.messages().len() ==> (#[trigger] self.messages()[a]).id
                    < self.next_message_id());
            assert(self.wf());
        }
        Ok(())
    }

    /// Deletes every chunk owned by the document keyed `artifact_id`.
    pub fn delete_embeddings_by_artifact(&mut self, artifact_id: &str)
        requires
            old(self).wf(),
        ensures
            final(self).wf(),
            final(self).artifacts() == old(self).artifacts(),
            final(self).embeddings() == old(self).embeddings().filter(
                keep_other_chunks(artifact_id@),
            ),
            final(self).messages() == old(self).messages(),
            final(self).next_message_id() == old(self).next_message_id(),
    {
        let n = self.embeddings.len();
        let mut kept: Vec<Embedding> = Vec::new();
        let mut i: usize = 0;
        proof {
            assert(self.embeddings.deep_view().subrange(0, 0) =~= Seq::<EmbeddingModel>::empty());
            assert(Seq::<EmbeddingModel>::empty().filter(keep_other_chunks(artifact_id@))
                =~= Seq::<EmbeddingModel>::empty()) by {
                reveal(Seq::filter);
            }
            assert(kept.deep_view() =~= Seq::<EmbeddingModel>::empty().filter(
                keep_other_chunks(artifact_id@),
            ));
        }
        while i < n
            invariant
                *self == *old(self),
                old(self).wf(),
                n == self.embeddings.len(),
                i <= n,
                kept.deep_view() == self.embeddings.deep_view().subrange(0, i as int).filter(
                    keep_other_chunks(artifact_id@),
                ),
            decreases n - i,
        {
            let ghost pre = self.embeddings.deep_view().subrange(0, i as int);
            let ghost cur = self.embeddings.deep_view()[i as int];
            proof {
                assert(cur == self.embeddings@[i as int]@);
                assert(self.embeddings.deep_view().subrange(0, i + 1) =~= pre.push(cur));
                pre.lemma_filter_push(cur, keep_other_chunks(artifact_id@));
                assert(keep_other_chunks(artifact_id@)(cur) == (cur.artifact_id != artifact_id@));
            }
            let ghost prek = kept.deep_view();
            if !crate::text::eq_str(self.embeddings[i].artifact_id.as_str(), artifact_id) {
                let e = clone_embedding(&self.embeddings[i]);
                kept.push(e);
                proof {
                    assert(kept.deep_view() =~= prek.push(cur));
                }
            }
            i += 1;
        }
        proof {
            assert(self.embeddings.deep_view().subrange(0, n as int) =~= self.embeddings
                .deep_view());
        }
        self.embeddings = kept;
        proof {
            lemma_filter_keeps_chunk_uniqueness(
                old(self).embeddings(),
                keep_other_chunks(artifact_id@),
            );
            let flt = old(self).embeddings().filter(keep_other_chunks(artifact_id@));
            assert(self.embeddings() == flt);
            assert(forall|a: int, b: int|
                0 <= a < b < self.embeddings().len() ==> (#[trigger] self.embeddings()[a]).id != (
                #[trigger] self.embeddings()[b]).id) by {
                assert(forall|a: int, b: int|
                    0 <= a < b < flt.len() ==> (#[trigger] flt[a]).id != (#[trigger] flt[b]).id);
            }
            assert(self.artifacts() == old(self).artifacts());
            assert(self.messages() == old(self).messages());
            assert(forall|a: int, b: int|
                0 <= a < b < self.artifacts().len() ==> ((#[trigger] self.artifacts()[a]).path != (
                #[trigger] self.artifacts()[b]).path && self.artifacts()[a].id
                    != self.artifacts()[b].id));
            assert(forall|a: int, b: int|
                0 <= a < b < self.messages().len() ==> (#[trigger] self.messages()[a]).id < (
                #[trigger] self.messages()[b]).id);
            assert(forall|a: int|
                0 <= a < self.messages().len() ==> (#[trigger] self.messages()[a]).id
                    < self.next_message_id());
            assert(self.wf());
        }
    }

    /// All chunk records, in insertion order, vectors included. Every search
    /// is a fresh full scan over this set.
    pub fn get_all_embeddings(&self) -> (r: Vec<Embedding>)
        ensures
            r.deep_view() == self.embeddings(),
    {
        let n = self.embeddings.len();
        let mut r: Vec<Embedding> = Vec::new();
        let mut i: usize = 0;
        while i < n
            invariant
                n == self.embeddings.len(),
                i <= n,
                r.deep_view() == self.embeddings.deep_view().subrange(0, i as int),
            decreases n - i,
        {
            let ghost pre = r.deep_view();
            let e = clone_embedding(&self.embeddings[i]);
            r.push(e);
            i += 1;
            proof {
                assert(r.deep_view() =~= pre.push(self.embeddings@[i - 1]@));
                assert(self.embeddings.deep_view().subrange(0, i as int) =~= pre.push(
                    self.embeddings.deep_view()[i - 1],
                ));
            }
        }
        proof {
            assert(self.embeddings.deep_view().subrange(0, n as int) =~= self.embeddings
                .deep_view());
        }
        r
    }

    /// Appends one conversation turn, minting its id; the id space running
    /// out is the one failure.
    pub fn insert_chat_message(&mut self, role: &str, content: &str, timestamp: i64) -> (r: Result<
        i64,
        StoreError,
    >)
        requires
            old(self).wf(),
        ensures
            final(self).wf(),
            final(self).artifacts() == old(self).artifacts(),
            final(self).embeddings() == old(self).embeddings(),
            old(self).next_message_id() == i64::MAX ==> r == Err::<i64, StoreError>(
                StoreError::MessageIdsExhausted,
            ) && final(self).messages() == old(self).messages() && final(self).next_message_id()
                == old(self).next_message_id(),
            old(self).next_message_id() < i64::MAX ==> r == Ok::<i64, StoreError>(
                old(self).next_message_id(),
            ) && final(self).messages() == old(self).messages().push(
                ChatMessageModel {
                    id: old(self).next_message_id(),
                    role: role@,
                    content: content@,
                    timestamp: timestamp,
                },
            ) && final(self).next_message_id() == old(self).next_message_id() + 1,
    {
        if self.next_message_id == i64::MAX {
            return Err(StoreError::MessageIdsExhausted);
        }
        let id = self.next_message_id;
        let msg = ChatMessage {
            id,
            role: String::from_str(role),
            content: String::from_str(content),
            timestamp,
        };
        let ghost pre = self.messages.deep_view();
        let ghost m = msg@;
        self.messages.push(msg);
        self.next_message_id = id + 1;
        proof {
            assert(self.messages.deep_view() =~= pre.push(m));
            let ext = pre.push(m);
            assert(pre == old(self).messages());
            assert forall|a: int, b: int| 0 <= a < b < ext.len() implies (#[trigger] ext[a]).id < (
            #[trigger] ext[b]).id by {
                if b < ext.len() - 1 {
                    assert(old(self).messages()[a].id < old(self).messages()[b].id);
                    assert(ext[a] == pre[a] && ext[b] == pre[b]);
                } else {
                    assert(ext[b] == m);
                    assert(ext[a] == pre[a]);
                    assert(old(self).messages()[a].id < old(self).next_message_id());
                }
            }
            assert(self.messages() == ext);
            assert(forall|a: int, b: int|
                0 <= a < b < self.messages().len() ==> (#[trigger] self.messages()[a]).id < (
                #[trigger] self.messages()[b]).id);
            assert forall|a: int|
                0 <= a < self.messages().len() implies (#[trigger] self.messages()[a]).id
                    < self.next_message_id() by {
                if a < self.messages().len() - 1 {
                    assert(self.messages()[a] == pre[a]);
                    assert(old(self).messages()[a].id < old(self).next_message_id());
                }
            }
            assert(self.artifacts() == old(self).artifacts());
            assert(self.embeddings() == old(self).embeddings());
            assert(forall|a: int, b: int|
                0 <= a < b < self.artifacts().len() ==> ((#[trigger] self.artifacts()[a]).path != (
                #[trigger] self.artifacts()[b]).path && self.artifacts()[a].id
                    != self.artifacts()[b].id));
            assert(forall|a: int, b: int|
                0 <= a < b < self.embeddings().len() ==> (#[trigger] self.embeddings()[a]).id != (
                #[trigger] self.embeddings()[b]).id);
            assert(self.wf());
        }
        Ok(id)
    }

    /// The conversation log in conversation order: by timestamp, with the id
    /// as tiebreak.
    pub fn get_chat_history(&self) -> (r: Vec<ChatMessage>)
        requires
            self.wf(),
        ensures
            r.deep_view().to_multiset() == self.messages().to_multiset(),
            r.len() == self.messages().len(),
            forall|i: int, j: int|
                0 <= i < j < r.deep_view().len() ==> msg_le(
                    #[trigger] r.deep_view()[i],
                    #[trigger] r.deep_view()[j],
                ),
    {
        broadcast use vstd::seq_lib::group_to_multiset_ensures;

        let n = self.messages.len();
        let mut out: Vec<ChatMessage> = Vec::new();
        let mut c: usize = 0;
        while c < n
            invariant
                n == self.messages.len(),
                c <= n,
                out.deep_view() == self.messages.deep_view().subrange(0, c as int),
            decreases n - c,
        {
            let ghost pre = out.deep_view();
            let m = clone_message(&self.messages[c]);
            out.push(m);
            c += 1;
            proof {
                assert(out.deep_view() =~= pre.push(self.messages@[c - 1]@));
                assert(self.messages.deep_view().subrange(0, c as int) =~= pre.push(
                    self.messages.deep_view()[c - 1],
                ));
            }
        }
        proof {
            assert(self.messages.deep_view().subrange(0, n as int) =~= self.messages.deep_view());
        }
        sort_messages(&mut out);
        proof {
            assert(out.deep_view().to_multiset() =~= self.messages().to_multiset());
        }
        out
    }

    /// Clears the conversation log; documents and chunks stay.
    pub fn clear_chat_history(&mut self)
        requires
            old(self).wf(),
        ensures
            final(self).wf(),
            final(self).artifacts() == old(self).artifacts(),
            final(self).embeddings() == old(self).embeddings(),
            final(self).messages() == Seq::<ChatMessageModel>::empty(),
            final(self).next_message_id() == old(self).next_message_id(),
    {
        self.messages = Vec::new();
        proof {
            assert(self.messages() =~= Seq::<ChatMessageModel>::empty());
            assert(self.artifacts() == old(self).artifacts());
            assert(self.embeddings() == old(self).embeddings());
            assert(forall|a: int, b: int|
                0 <= a < b < self.artifacts().len() ==> ((#[trigger] self.artifacts()[a]).path != (
                #[trigger] self.artifacts()[b]).path && self.artifacts()[a].id
                    != self.artifacts()[b].id));
            assert(forall|a: int, b: int|
                0 <= a < b < self.embeddings().len() ==> (#[trigger] self.embeddings()[a]).id != (
                #[trigger] self.embeddings()[b]).id);
            assert(self.wf());
        }
    }
}

/// An exact copy of an optional string.
pub(crate) fn clone_option_string(o: &Option<String>) -> (r: Option<String>)
    ensures
        r == *o,
{
    match o {
        Some(s) => Some(s.clone()),
        None => None,
    }
}

/// An exact copy of a document record.
pub(crate) fn clone_artifact(a: &Artifact) -> (r: Artifact)
    ensures
        r == *a,
        r@ == a@,
{
    Artifact {
        id: a.id.clone(),
        path: a.path.clone(),
        last_modified: a.last_modified,
        content_hash: a.content_hash.clone(),
        indexed_at: a.indexed_at,
    }
}

/// An exact copy of an embedding vector.
fn clone_vec_u32(v: &Vec<u32>) -> (r: Vec<u32>)
    ensures
        r@ == v@,
{
    let n = v.len();
    let mut r: Vec<u32> = Vec::new();
    let mut i: usize = 0;
    while i < n
        invariant
            n == v.len(),
            i <= n,
            r@ == v@.subrange(0, i as int),
        decreases n - i,
    {
        r.push(v[i]);
        i += 1;
        proof {
            assert(r@ =~= v@.subrange(0, i as int));
        }
    }
    proof {
        assert(v@.subrange(0, n as int) =~= v@);
    }
    r
}

/// An exact copy of a chunk record.
pub(crate) fn clone_embedding(e: &Embedding) -> (r: Embedding)
    ensures
        r@ == e@,
{
    Embedding {
        id: e.id.clone(),
        artifact_id: e.artifact_id.clone(),
        chunk_index: e.chunk_index,
        content: e.content.clone(),
        embedding: clone_vec_u32(&e.embedding),
    }
}

/// An exact copy of a conversation message.
pub(crate) fn clone_message(m: &ChatMessage) -> (r: ChatMessage)
    ensures
        r == *m,
        r@ == m@,
{
    ChatMessage {
        id: m.id,
        role: m.role.clone(),
        content: m.content.clone(),
        timestamp: m.timestamp,
    }
}

/// Filtering a sequence whose document paths and ids are pairwise distinct
/// keeps them pairwise distinct.
proof fn lemma_filter_keeps_uniqueness(s: Seq<ArtifactModel>, p: spec_fn(ArtifactModel) -> bool)
    requires
        forall|i: int, j: int|
            0 <= i < j < s.len() ==> (#[trigger] s[i]).path != (#[trigger] s[j]).path && s[i].id
                != s[j].id,
    ensures
        forall|i: int, j: int|
            0 <= i < j < s.filter(p).len() ==> (#[trigger] s.filter(p)[i]).path != (
            #[trigger] s.filter(p)[j]).path && s.filter(p)[i].id != s.filter(p)[j].id,
    decreases s.len(),
{
    broadcast use vstd::seq_lib::group_filter_ensures;

    if s.len() == 0 {
        assert(s.filter(p) =~= Seq::<ArtifactModel>::empty()) by {
            reveal(Seq::filter);
        }
    } else {
        let rest = s.drop_last();
        lemma_filter_keeps_uniqueness(rest, p);
        assert(s =~= rest.push(s.last()));
        rest.lemma_filter_push(s.last(), p);
        if p(s.last()) {
            let f = rest.filter(p).push(s.last());
            assert(s.filter(p) == f);
            assert forall|i: int, j: int| 0 <= i < j < f.len() implies (#[trigger] f[i]).path != (
            #[trigger] f[j]).path && f[i].id != f[j].id by {
                if j < f.len() - 1 {
                    assert(f[i] == rest.filter(p)[i] && f[j] == rest.filter(p)[j]);
                } else {
                    assert(f[j] == s.last());
                    assert(f[i] == rest.filter(p)[i]);
                    assert(rest.filter(p).contains(rest.filter(p)[i]));
                    rest.lemma_filter_contains_rev(p, rest.filter(p)[i]);
                    assert(rest.contains(rest.filter(p)[i]));
                    let w = choose|w: int| 0 <= w < rest.len() && rest[w] == rest.filter(p)[i];
                    assert(0 <= w < rest.len() && rest[w] == rest.filter(p)[i]);
                    assert(s[w] == rest[w]);
                    assert(s[s.len() - 1] == s.last());
                    assert(s[w].path != s[s.len() - 1].path && s[w].id != s[s.len() - 1].id);
                }
            }
        } else {
            assert(s.filter(p) == rest.filter(p));
        }
    }
}

/// Keeps the chunks not owned by the document keyed `aid`.
pub open spec fn keep_other_chunks(aid: Seq<char>) -> spec_fn(EmbeddingModel) -> bool {
    |e: EmbeddingModel| e.artifact_id != aid
}

/// Keeps the chunks whose owner is not the document at `path` in `arts`.
pub open spec fn keep_chunks_not_at_path(arts: Seq<ArtifactModel>, path: Seq<char>) -> spec_fn(
    EmbeddingModel,
) -> bool {
    |e: EmbeddingModel|
        !(exists|i: int|
            0 <= i < arts.len() && (#[trigger] arts[i]).path == path && arts[i].id == e.artifact_id)
}

/// Keeps the documents not at `path`.
pub open spec fn keep_other_paths(path: Seq<char>) -> spec_fn(ArtifactModel) -> bool {
    |a: ArtifactModel| a.path != path
}

/// Filtering a chunk sequence with pairwise distinct keys keeps the keys
/// pairwise distinct.
proof fn lemma_filter_keeps_chunk_uniqueness(s: Seq<EmbeddingModel>, p: spec_fn(EmbeddingModel) -> bool)
    requires
        forall|i: int, j: int|
            0 <= i < j < s.len() ==> (#[trigger] s[i]).id != (#[trigger] s[j]).id,
    ensures
        forall|i: int, j: int|
            0 <= i < j < s.filter(p).len() ==> (#[trigger] s.filter(p)[i]).id != (
            #[trigger] s.filter(p)[j]).id,
    decreases s.len(),
{
    broadcast use vstd::seq_lib::group_filter_ensures;

    if s.len() == 0 {
        assert(s.filter(p) =~= Seq::<EmbeddingModel>::empty()) by {
            reveal(Seq::filter);
        }
    } else {
        let rest = s.drop_last();
        lemma_filter_keeps_chunk_uniqueness(rest, p);
        assert(s =~= rest.push(s.last()));
        rest.lemma_filter_push(s.last(), p);
        if p(s.last()) {
            let f = rest.filter(p).push(s.last());
            assert(s.filter(p) == f);
            assert forall|i: int, j: int| 0 <= i < j < f.len() implies (#[trigger] f[i]).id != (
            #[trigger] f[j]).id by {
                if j < f.len() - 1 {
                    assert(f[i] == rest.filter(p)[i] && f[j] == rest.filter(p)[j]);
                } else {
                    assert(f[j] == s.last());
                    assert(f[i] == rest.filter(p)[i]);
                    assert(rest.filter(p).contains(rest.filter(p)[i]));
                    rest.lemma_filter_contains_rev(p, rest.filter(p)[i]);
                    assert(rest.contains(rest.filter(p)[i]));
                    let w = choose|w: int| 0 <= w < rest.len() && rest[w] == rest.filter(p)[i];
                    assert(0 <= w < rest.len() && rest[w] == rest.filter(p)[i]);
                    assert(s[w] == rest[w]);
                    assert(s[s.len() - 1] == s.last());
                    assert(s[w].id != s[s.len() - 1].id);
                }
            }
        } else {
            assert(s.filter(p) == rest.filter(p));
        }
    }
}

/// Strict conversation-order comparison, the negation of `msg_le`.
fn msg_gt(a: &ChatMessage, b: &ChatMessage) -> (r: bool)
    ensures
        r == !msg_le(a@, b@),
{
    a.timestamp > b.timestamp || (a.timestamp == b.timestamp && a.id > b.id)
}

/// Sorts messages into conversation order: by timestamp, id as tiebreak.
fn sort_messages(out: &mut Vec<ChatMessage>)

    ensures
        final(out).deep_view().to_multiset() == old(out).deep_view().to_multiset(),
        final(out).len() == old(out).len(),
        forall|i: int, j: int|
            0 <= i < j < final(out).deep_view().len() ==> msg_le(
                #[trigger] final(out).deep_view()[i],
                #[trigger] final(out).deep_view()[j],
            ),
{
    broadcast use vstd::seq_lib::group_to_multiset_ensures;
    broadcast use vstd::multiset::group_multiset_axioms;

    let n = out.len();
    if n == 0 {
        return ;
    }
    let mut i: usize = 1;
    while i < n
        invariant
            n == out.len(),
            1 <= i <= n,
            out.deep_view().to_multiset() == old(out).deep_view().to_multiset(),
            forall|a: int, b: int|
                0 <= a < b < i ==> msg_le(
                    #[trigger] out.deep_view()[a],
                    #[trigger] out.deep_view()[b],
                ),
        decreases n - i,
    {
        let ghost dv = out.deep_view();
        let x = out.remove(i);
        let ghost xm = x@;
        let ghost dv1 = out.deep_view();
        proof {
            assert(dv1 =~= dv.remove(i as int));
            assert(forall|k: int| 0 <= k < i ==> dv1[k] == dv[k]);
            assert(dv1.insert(i as int, xm) =~= dv);
            vstd::seq_lib::to_multiset_insert(dv1, i as int, xm);
            assert(dv.to_multiset() == dv1.to_multiset().insert(xm));
        }
        let mut j: usize = i;
        while j > 0 && msg_gt(&out[j - 1], &x)
            invariant
                n - 1 == out.len(),
                i < n,
                j <= i,
                dv1 == out.deep_view(),
                xm == x@,
                forall|k: int| #![trigger dv1[k]] j <= k < i ==> !msg_le(dv1[k], xm),
            decreases j,
        {
            proof {
                assert(dv1[j - 1] == out@[j - 1]@);
            }
            j -= 1;
        }
        proof {
            assert(j > 0 ==> msg_le(dv1[j - 1], xm)) by {
                if j > 0 {
                    assert(dv1[j - 1] == out@[j - 1]@);
                }
            }
        }
        out.insert(j, x);
        i += 1;
        proof {
            let dv2 = out.deep_view();
            assert(dv2 =~= dv1.insert(j as int, xm));
            vstd::seq_lib::to_multiset_insert(dv1, j as int, xm);
            assert(dv2.to_multiset() == dv1.to_multiset().insert(xm));
            assert(dv2.to_multiset() == dv.to_multiset());
            assert(out.deep_view().to_multiset() == old(out).deep_view().to_multiset());
            assert forall|a: int, b: int|
                0 <= a < b < i implies msg_le(#[trigger] dv2[a], #[trigger] dv2[b]) by {
                if b < j {
                    assert(dv2[a] == dv1[a] && dv2[b] == dv1[b]);
                    assert(dv1[a] == dv[a] && dv1[b] == dv[b]);
                } else if a < j && b == j {
                    assert(dv2[a] == dv1[a] && dv1[a] == dv[a]);
                    assert(dv2[b] == xm);
                    assert(msg_le(dv1[j - 1], xm));
                    assert(dv1[j - 1] == dv[j - 1]);
                    assert(a <= j - 1);
                    assert(msg_le(dv[a], dv[j - 1]));
                } else if a < j && b > j {
                    assert(dv2[a] == dv1[a] && dv1[a] == dv[a]);
                    assert(dv2[b] == dv1[b - 1]);
                    if b - 1 < i {
                        if b - 1 >= j {
                            assert(!msg_le(dv1[b - 1], xm));
                            assert(dv1[b - 1] == dv[b - 1]);
                            assert(msg_le(dv[a], dv[b - 1]));
                        }
                    }
                } else if a == j {
                    assert(dv2[a] == xm);
                    assert(dv2[b] == dv1[b - 1]);
                    assert(j <= b - 1 < i);
                    assert(!msg_le(dv1[b - 1], xm));
                } else {
                    assert(a > j);
                    assert(dv2[a] == dv1[a - 1] && dv2[b] == dv1[b - 1]);
                    assert(j <= a - 1 < b - 1 < i);
                    assert(dv1[a - 1] == dv[a - 1] && dv1[b - 1] == dv[b - 1]);
                    assert(msg_le(dv[a - 1], dv[b - 1]));
                }
            }
        }
    }
}

} // verus!
