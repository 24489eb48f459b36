//! Data model: assets, encodings, upload batches and chunks, the store state,
//! HTTP-style request and response values, and the error taxonomy.

use crate::text::clone_bytes;
use crate::text::clone_chunk_list;
use crate::text::clone_opt_string;
use vstd::prelude::*;

verus! {

/// Batch time-to-live in nanoseconds; slid forward on every chunk upload.
pub const BATCH_EXPIRY_NANOS: u64 = 300_000_000_000;

/// An opaque caller identity, compared for exact byte equality.
pub struct Principal {
    pub id: Vec<u8>,
}

impl View for Principal {
    type V = Seq<u8>;

    open spec fn view(&self) -> Seq<u8> {
        self.id@
    }
}

impl Clone for Principal {
    fn clone(&self) -> (r: Self)
        ensures
            r@ == self@,
    {
        Principal { id: clone_bytes(&self.id) }
    }
}

impl Principal {
    pub fn eq_principal(&self, other: &Principal) -> (r: bool)
        ensures
            r == (self@ == other@),
    {
        if self.id.len() != other.id.len() {
            assert(self@ != other@);
            return false;
        }
        let mut i: usize = 0;
        while i < self.id.len()
            invariant
                0 <= i <= self.id.len(),
                self.id.len() == other.id.len(),
                forall|j: int| 0 <= j < i ==> self.id@[j] == other.id@[j],
            decreases self.id.len() - i,
        {
            if self.id[i] != other.id[i] {
                assert(self@ != other@);
                return false;
            }
            i += 1;
        }
        assert(self@ =~= other@);
        true
    }
}

/// One name/value header pair.
pub struct HeaderField(pub String, pub String);

impl View for HeaderField {
    type V = (Seq<char>, Seq<char>);

    open spec fn view(&self) -> (Seq<char>, Seq<char>) {
        (self.0@, self.1@)
    }
}

impl Clone for HeaderField {
    fn clone(&self) -> (r: Self)
        ensures
            r@ == self@,
    {
        HeaderField(self.0.clone(), self.1.clone())
    }
}

pub open spec fn headers_view(h: Seq<HeaderField>) -> Seq<(Seq<char>, Seq<char>)> {
    h.map_values(|f: HeaderField| f@)
}

pub fn clone_headers(h: &Vec<HeaderField>) -> (r: Vec<HeaderField>)
    ensures
        headers_view(r@) == headers_view(h@),
{
    let mut out: Vec<HeaderField> = Vec::new();
    let mut i: usize = 0;
    while i < h.len()
        invariant
            0 <= i <= h.len(),
            out@.len() == i,
            forall|j: int| 0 <= j < i ==> (#[trigger] out@[j])@ == h@[j]@,
        decreases h.len() - i,
    {
        out.push(h[i].clone());
        i += 1;
    }
    assert(headers_view(out@) =~~= headers_view(h@));
    out
}

/// The identity of an asset awaiting or holding content.
pub struct AssetKey {
    /// Unique path identifying the asset, e.g. `/images/a.png`.
    pub full_path: String,
    /// Collection tag; immutable per path once an asset exists.
    pub collection: String,
    /// The principal that created the batch and owns the upload.
    pub owner: Principal,
    /// Optional access token protecting reads of the asset.
    pub token: Option<String>,
    pub name: String,
    pub description: String,
}

pub ghost struct AssetKeyV {
    pub full_path: Seq<char>,
    pub collection: Seq<char>,
    pub owner: Seq<u8>,
    pub token: Option<Seq<char>>,
    pub name: Seq<char>,
    pub description: Seq<char>,
}

pub open spec fn opt_string_view(s: Option<String>) -> Option<Seq<char>> {
    match s {
        Option::None => Option::None,
        Option::Some(t) => Option::Some(t@),
    }
}

impl View for AssetKey {
    type V = AssetKeyV;

    open spec fn view(&self) -> AssetKeyV {
        AssetKeyV {
            full_path: self.full_path@,
            collection: self.collection@,
            owner: self.owner@,
            token: opt_string_view(self.token),
            name: self.name@,
            description: self.description@,
        }
    }
}

impl Clone for AssetKey {
    fn clone(&self) -> (r: Self)
        ensures
            r@ == self@,
    {
        AssetKey {
            full_path: self.full_path.clone(),
            collection: self.collection.clone(),
            owner: self.owner.clone(),
            token: clone_opt_string(&self.token),
            name: self.name.clone(),
            description: self.description.clone(),
        }
    }
}

/// One content-encoding variant of an asset: ordered chunks, their total
/// size, and the SHA-256 digest of their concatenation.
pub struct AssetEncoding {
    pub modified: u64,
    pub content_chunks: Vec<Vec<u8>>,
    pub total_length: u128,
    pub sha256: [u8; 32],
}

pub ghost struct AssetEncodingV {
    pub modified: u64,
    pub content_chunks: Seq<Seq<u8>>,
    pub total_length: u128,
    pub sha256: Seq<u8>,
}

impl View for AssetEncoding {
    type V = AssetEncodingV;

    open spec fn view(&self) -> AssetEncodingV {
        AssetEncodingV {
            modified: self.modified,
            content_chunks: self.content_chunks.deep_view(),
            total_length: self.total_length,
            sha256: self.sha256@,
        }
    }
}

impl Clone for AssetEncoding {
    fn clone(&self) -> (r: Self)
        ensures
            r@ == self@,
    {
        AssetEncoding {
            modified: self.modified,
            content_chunks: clone_chunk_list(&self.content_chunks),
            total_length: self.total_length,
            sha256: self.sha256,
        }
    }
}

/// A published asset: key, response headers, and one record per encoding
/// label (at most one entry per label).
pub struct Asset {
    pub key: AssetKey,
    pub headers: Vec<HeaderField>,
    pub encodings: Vec<(String, AssetEncoding)>,
    pub created_at: u64,
    pub updated_at: u64,
}

pub ghost struct AssetV {
    pub key: AssetKeyV,
    pub headers: Seq<(Seq<char>, Seq<char>)>,
    pub encodings: Seq<(Seq<char>, AssetEncodingV)>,
    pub created_at: u64,
    pub updated_at: u64,
}

impl View for Asset {
    type V = AssetV;

    open spec fn view(&self) -> AssetV {
        AssetV {
            key: self.key@,
            headers: headers_view(self.headers@),
            encodings: self.encodings@.map_values(|p: (String, AssetEncoding)| (p.0@, p.1@)),
            created_at: self.created_at,
            updated_at: self.updated_at,
        }
    }
}

impl Clone for Asset {
    fn clone(&self) -> (r: Self)
        ensures
            r@ == self@,
    {
        let mut encodings: Vec<(String, AssetEncoding)> = Vec::new();
        let mut i: usize = 0;
        while i < self.encodings.len()
            invariant
                0 <= i <= self.encodings.len(),
                encodings@.len() == i,
                forall|j: int|
                    0 <= j < i ==> (#[trigger] encodings@[j]).0@ == self.encodings@[j].0@
                        && encodings@[j].1@ == self.encodings@[j].1@,
            decreases self.encodings.len() - i,
        {
            let (label, enc) = &self.encodings[i];
            encodings.push((label.clone(), enc.clone()));
            i += 1;
        }
        assert(encodings@.map_values(|p: (String, AssetEncoding)| (p.0@, p.1@)) =~~= self
            .encodings@.map_values(|p: (String, AssetEncoding)| (p.0@, p.1@)));
        let r = Asset {
            key: self.key.clone(),
            headers: clone_headers(&self.headers),
            encodings,
            created_at: self.created_at,
            updated_at: self.updated_at,
        };
        r
    }
}

/// An in-flight upload session for one asset encoding.
pub struct Batch {
    pub key: AssetKey,
    pub expires_at: u64,
    pub encoding_type: Option<String>,
}

pub ghost struct BatchV {
    pub key: AssetKeyV,
    pub expires_at: u64,
    pub encoding_type: Option<Seq<char>>,
}

impl View for Batch {
    type V = BatchV;

    open spec fn view(&self) -> BatchV {
        BatchV {
            key: self.key@,
            expires_at: self.expires_at,
            encoding_type: opt_string_view(self.encoding_type),
        }
    }
}

impl Clone for Batch {
    fn clone(&self) -> (r: Self)
        ensures
            r@ == self@,
    {
        Batch {
            key: self.key.clone(),
            expires_at: self.expires_at,
            encoding_type: clone_opt_string(&self.encoding_type),
        }
    }
}

/// One uploaded content fragment, bound to its batch.
pub struct Chunk {
    pub batch_id: u128,
    pub content: Vec<u8>,
    pub order_id: u128,
}

pub ghost struct ChunkV {
    pub batch_id: u128,
    pub content: Seq<u8>,
    pub order_id: u128,
}

impl View for Chunk {
    type V = ChunkV;

    open spec fn view(&self) -> ChunkV {
        ChunkV { batch_id: self.batch_id, content: self.content@, order_id: self.order_id }
    }
}

impl Clone for Chunk {
    fn clone(&self) -> (r: Self)
        ensures
            r@ == self@,
    {
        Chunk {
            batch_id: self.batch_id,
            content: clone_bytes(&self.content),
            order_id: self.order_id,
        }
    }
}

/// The whole mutable store: in-flight batches and chunks, published assets,
/// and the monotonically increasing id counters.
pub struct State {
    pub batches: Vec<(u128, Batch)>,
    pub chunks: Vec<(u128, Chunk)>,
    pub assets: Vec<(String, Asset)>,
    pub next_batch_id: u128,
    pub next_chunk_id: u128,
}

pub ghost struct StateV {
    pub batches: Seq<(u128, BatchV)>,
    pub chunks: Seq<(u128, ChunkV)>,
    pub assets: Seq<(Seq<char>, AssetV)>,
    pub next_batch_id: u128,
    pub next_chunk_id: u128,
}

impl View for State {
    type V = StateV;

    open spec fn view(&self) -> StateV {
        StateV {
            batches: self.batches@.map_values(|p: (u128, Batch)| (p.0, p.1@)),
            chunks: self.chunks@.map_values(|p: (u128, Chunk)| (p.0, p.1@)),
            assets: self.assets@.map_values(|p: (String, Asset)| (p.0@, p.1@)),
            next_batch_id: self.next_batch_id,
            next_chunk_id: self.next_chunk_id,
        }
    }
}

impl Default for State {
    fn default() -> (r: Self)
        ensures
            r@.batches =~= Seq::<(u128, BatchV)>::empty(),
            r@.chunks =~= Seq::<(u128, ChunkV)>::empty(),
            r@.assets =~= Seq::<(Seq<char>, AssetV)>::empty(),
            r@.next_batch_id == 0,
            r@.next_chunk_id == 0,
            r.wf(),
    {
        let r = State {
            batches: Vec::new(),
            chunks: Vec::new(),
            assets: Vec::new(),
            next_batch_id: 0,
            next_chunk_id: 0,
        };
        r
    }
}

/// A batch is well formed when its encoding label (or its default) is one of
/// the supported encodings, so that a commit of the batch can always resolve
/// the label.
pub open spec fn batch_wf(b: BatchV) -> bool {
    crate::model::is_supported_encoding(crate::model::encoding_label(b.encoding_type))
}

/// An asset is well formed when every stored encoding has at least one
/// content chunk; a commit of an empty chunk list is rejected, so this holds
/// of everything the store publishes.
pub open spec fn asset_wf(a: AssetV) -> bool {
    forall|i: int| 0 <= i < a.encodings.len() ==> (#[trigger] a.encodings[i]).1.content_chunks.len()
        >= 1
}

impl State {
    /// Store invariant: ids are unique and never exceed the counters (so
    /// fresh ids are never reused), every batch's encoding label is
    /// supported, and every published asset has non-empty encodings under
    /// unique paths.
    pub open spec fn wf(&self) -> bool {
        &&& forall|i: int|
            0 <= i < self@.batches.len() ==> (#[trigger] self@.batches[i]).0
                <= self@.next_batch_id && batch_wf(self@.batches[i].1)
        &&& forall|i: int|
            0 <= i < self@.chunks.len() ==> (#[trigger] self@.chunks[i]).0 <= self@.next_chunk_id
        &&& forall|i: int| 0 <= i < self@.assets.len() ==> asset_wf((#[trigger] self@.assets[i]).1)
        &&& crate::model::punique(self@.batches)
        &&& crate::model::punique(self@.chunks)
        &&& crate::model::sunique(self@.assets)
    }
}

/// Request to open an upload batch.
pub struct InitAssetKey {
    pub name: String,
    pub full_path: String,
    pub token: Option<String>,
    pub collection: String,
    pub encoding_type: Option<String>,
    pub description: String,
}

/// One chunk upload request.
pub struct UploadChunk {
    pub batch_id: u128,
    pub content: Vec<u8>,
    pub order_id: Option<u128>,
}

/// Commit request: the batch, the chunk ids to assemble, and the headers the
/// published asset will carry.
pub struct CommitBatch {
    pub batch_id: u128,
    pub headers: Vec<HeaderField>,
    pub chunk_ids: Vec<u128>,
}

/// A parsed request URL: the path, and the first `token` query value if any.
pub struct MapUrl {
    pub path: String,
    pub token: Option<String>,
}

/// The outcome of URL resolution: the effective path and the matching asset,
/// if one was found and is readable.
pub struct PublicAsset {
    pub url: String,
    pub asset: Option<Asset>,
}

/// Self-contained continuation for serving chunks after the first.
pub struct StreamingCallbackToken {
    pub full_path: String,
    pub token: Option<String>,
    pub headers: Vec<HeaderField>,
    pub index: usize,
    pub sha256: Option<[u8; 32]>,
    pub encoding_type: String,
}

pub ghost struct StreamingCallbackTokenV {
    pub full_path: Seq<char>,
    pub token: Option<Seq<char>>,
    pub headers: Seq<(Seq<char>, Seq<char>)>,
    pub index: usize,
    pub sha256: Option<Seq<u8>>,
    pub encoding_type: Seq<char>,
}

impl View for StreamingCallbackToken {
    type V = StreamingCallbackTokenV;

    open spec fn view(&self) -> StreamingCallbackTokenV {
        StreamingCallbackTokenV {
            full_path: self.full_path@,
            token: opt_string_view(self.token),
            headers: headers_view(self.headers@),
            index: self.index,
            sha256: match self.sha256 {
                Option::None => Option::None,
                Option::Some(h) => Option::Some(h@),
            },
            encoding_type: self.encoding_type@,
        }
    }
}

/// An HTTP-style request: only the method, URL and headers are consulted.
pub struct HttpRequest {
    pub method: String,
    pub url: String,
    pub headers: Vec<HeaderField>,
    pub body: Vec<u8>,
}

/// An HTTP-style response. `streaming_token`, when present, lets the caller
/// fetch the remaining chunks through the streaming callback.
pub struct HttpResponse {
    pub status_code: u16,
    pub headers: Vec<HeaderField>,
    pub body: Vec<u8>,
    pub streaming_token: Option<StreamingCallbackToken>,
}

/// One step of the streaming continuation: the chunk at the token's index and
/// the token for the next chunk, absent once the content is exhausted.
pub struct StreamingCallbackHttpResponse {
    pub token: Option<StreamingCallbackToken>,
    pub body: Vec<u8>,
}

/// Why opening a batch was refused.
#[derive(Clone, Copy, Debug, PartialEq, Eq, Structural)]
pub enum CreateBatchError {
    /// The requested encoding label is not supported.
    UnsupportedEncoding,
    /// The batch id counter is exhausted.
    IdOverflow,
}

impl CreateBatchError {
    pub fn message(&self) -> (r: String) {
        match self {
            CreateBatchError::UnsupportedEncoding => String::from_str(
                "Asset encoding not supported for certification purpose.",
            ),
            CreateBatchError::IdOverflow => String::from_str("No batch id left."),
        }
    }
}

/// Why a chunk upload was refused.
#[derive(Clone, Copy, Debug, PartialEq, Eq, Structural)]
pub enum CreateChunkError {
    /// No batch lives under the given id.
    BatchNotFound,
    /// The uploader is not the principal that opened the batch.
    NotOwner,
    /// The chunk id counter is exhausted.
    IdOverflow,
}

impl CreateChunkError {
    pub fn message(&self) -> (r: String) {
        match self {
            CreateChunkError::BatchNotFound => String::from_str("Batch not found."),
            CreateChunkError::NotOwner => String::from_str(
                "Batch initializer does not match chunk uploader.",
            ),
            CreateChunkError::IdOverflow => String::from_str("No chunk id left."),
        }
    }
}

/// Why a commit was refused.
#[derive(Clone, Copy, Debug, PartialEq, Eq, Structural)]
pub enum CommitBatchError {
    /// No batch lives under the given id.
    BatchNotFound,
    /// The committer is not the principal that opened the batch.
    NotOwner,
    /// The batch's time-to-live elapsed; expired state has been swept.
    Expired,
    /// An asset already exists at the path with another collection.
    CollectionMismatch,
    /// A listed chunk id does not exist.
    ChunkNotFound,
    /// A listed chunk belongs to another batch.
    ChunkOutsideBatch,
    /// The commit listed no chunks.
    Empty,
}

impl CommitBatchError {
    pub fn message(&self) -> (r: String) {
        match self {
            CommitBatchError::BatchNotFound => String::from_str("Cannot commit batch."),
            CommitBatchError::NotOwner => String::from_str("Cannot commit batch."),
            CommitBatchError::Expired => String::from_str(
                "Batch did not complete in time. Chunks cannot be committed.",
            ),
            CommitBatchError::CollectionMismatch => String::from_str(
                "Provided collection does not match existing collection.",
            ),
            CommitBatchError::ChunkNotFound => String::from_str("Chunk does not exist."),
            CommitBatchError::ChunkOutsideBatch => String::from_str(
                "Chunk not included in the provided batch.",
            ),
            CommitBatchError::Empty => String::from_str("No chunk to commit."),
        }
    }
}

} // verus!
