//! The store's operations: opening batches, uploading chunks, committing a
//! batch into a published asset, and token-gated reads.

use crate::model::encoding_label;
use crate::model::is_supported_encoding;
use crate::model::lemma_plookup_is_entry;
use crate::model::lemma_premove_all_entries;
use crate::model::lemma_premove_all_unique;
use crate::model::lemma_premove_entries;
use crate::model::lemma_premove_unique;
use crate::model::lemma_pupsert_entries;
use crate::model::lemma_pupsert_unique;
use crate::model::lemma_resolve_prefix_err;
use crate::model::lemma_slookup_is_entry;
use crate::model::lemma_sort_ordered;
use crate::model::lemma_sorted_insert_at;
use crate::model::lemma_supsert_entries;
use crate::model::lemma_supsert_unique;
use crate::model::lemma_sweep_batches_entries;
use crate::model::lemma_sweep_batches_unique;
use crate::model::lemma_sweep_chunks_entries;
use crate::model::lemma_sweep_chunks_unique;
use crate::model::committed_state;
use crate::model::concat_bytes;
use crate::model::contents_of;
use crate::model::encoding_of;
use crate::model::merged_asset;
use crate::model::plookup;
use crate::model::pupsert;
use crate::model::resolve_chunks;
use crate::model::slookup;
use crate::model::sort_by_order;
use crate::model::supsert;
use crate::model::sweep_batches;
use crate::model::swept_state;
use crate::model::total_size;
use crate::text::clone_bytes;
use crate::text::string_eq;
use crate::types::batch_wf;
use crate::types::asset_wf;
use crate::types::headers_view;
use crate::types::opt_string_view;
use crate::types::Asset;
use crate::types::AssetEncoding;
use crate::types::AssetEncodingV;
use crate::types::AssetKey;
use crate::types::AssetKeyV;
use crate::types::AssetV;
use crate::types::Batch;
use crate::types::BatchV;
use crate::types::Chunk;
use crate::types::ChunkV;
use crate::types::CommitBatch;
use crate::types::CommitBatchError;
use crate::types::CreateBatchError;
use crate::types::CreateChunkError;
use crate::types::InitAssetKey;
use crate::types::Principal;
use crate::types::State;
use crate::types::UploadChunk;
use crate::types::BATCH_EXPIRY_NANOS;
use vstd::pervasive::VecAdditionalExecFns;
use vstd::prelude::*;

verus! {

/// When a batch opened or refreshed at `now` expires: one time-to-live later,
/// held at the clock's maximum when the sum would not fit.
pub open spec fn expiry_at(now: u64) -> u64 {
    if now <= u64::MAX - BATCH_EXPIRY_NANOS {
        (now + BATCH_EXPIRY_NANOS) as u64
    } else {
        u64::MAX
    }
}

/// The batch that `create_batch` stores.
pub open spec fn batch_of(init: InitAssetKey, caller: Seq<u8>, now: u64) -> BatchV {
    BatchV {
        key: (AssetKeyV {
            full_path: init.full_path@,
            collection: init.collection@,
            owner: caller,
            token: opt_string_view(init.token),
            name: init.name@,
            description: init.description@,
        }),
        expires_at: expiry_at(now),
        encoding_type: opt_string_view(init.encoding_type),
    }
}

/// The access gate: an asset without a stored token is public; one with a
/// stored token is returned only for an exactly equal supplied token.
pub open spec fn protected_asset(found: Option<AssetV>, token: Option<Seq<char>>) -> Option<
    AssetV,
> {
    match found {
        Option::None => Option::None,
        Option::Some(a) => match a.key.token {
            Option::None => Option::Some(a),
            Option::Some(stored) => match token {
                Option::None => Option::None,
                Option::Some(supplied) => if supplied == stored {
                    Option::Some(a)
                } else {
                    Option::None
                },
            },
        },
    }
}

fn saturating_expiry(now: u64) -> (r: u64)
    ensures
        r == expiry_at(now),
{
    if now <= u64::MAX - BATCH_EXPIRY_NANOS {
        now + BATCH_EXPIRY_NANOS
    } else {
        u64::MAX
    }
}

/// Resolve the requested encoding label, or refuse an unsupported one.
fn get_encoding_type(encoding_type: &Option<String>) -> (r: Result<String, CreateBatchError>)
    ensures
        r is Ok <==> is_supported_encoding(encoding_label(opt_string_view(*encoding_type))),
        r is Ok ==> (r->Ok_0)@ == encoding_label(opt_string_view(*encoding_type)),
        r is Err ==> r == Result::<String, CreateBatchError>::Err(
            CreateBatchError::UnsupportedEncoding,
        ),
{
    let provided: String = match encoding_type {
        Option::None => String::from_str("identity"),
        Option::Some(t) => t.clone(),
    };
    let matching = crate::text::str_eq(provided.as_str(), "identity") || crate::text::str_eq(
        provided.as_str(),
        "gzip",
    ) || crate::text::str_eq(provided.as_str(), "compress") || crate::text::str_eq(
        provided.as_str(),
        "deflate",
    ) || crate::text::str_eq(provided.as_str(), "br");
    if !matching {
        return Result::Err(CreateBatchError::UnsupportedEncoding);
    }
    Result::Ok(provided)
}

/// Sweep expired batches, then chunks whose batch is gone.
fn clear_expired_batches(state: &mut State, now: u64)
    requires
        old(state).wf(),
    ensures
        final(state).wf(),
        final(state)@ == swept_state(old(state)@, now),
{
    let ghost st0 = state@;
    crate::runtime::clear_expired_batches(state, now);
    crate::runtime::clear_expired_chunks(state);
    proof {
        let bp = |e: (u128, BatchV)| e.0 <= st0.next_batch_id && batch_wf(e.1);
        assert(forall|i: int| 0 <= i < st0.batches.len() ==> bp(#[trigger] st0.batches[i]));
        lemma_sweep_batches_entries(st0.batches, now, bp);
        lemma_sweep_batches_unique(st0.batches, now);
        let cp = |e: (u128, ChunkV)| e.0 <= st0.next_chunk_id;
        assert(forall|i: int| 0 <= i < st0.chunks.len() ==> cp(#[trigger] st0.chunks[i]));
        lemma_sweep_chunks_entries(st0.chunks, sweep_batches(st0.batches, now), cp);
        lemma_sweep_chunks_unique(st0.chunks, sweep_batches(st0.batches, now));
    }
}

/// Open an upload batch. An unsupported encoding label is refused before any
/// id is allocated; otherwise expired batches are swept, the next batch id is
/// allocated, and the batch is stored with a fresh expiry.
pub fn create_batch(
    state: &mut State,
    caller: &Principal,
    init: InitAssetKey,
    now: u64,
) -> (r: Result<u128, CreateBatchError>)
    requires
        old(state).wf(),
    ensures
        final(state).wf(),
        !is_supported_encoding(encoding_label(opt_string_view(init.encoding_type))) ==> r
            == Result::<u128, CreateBatchError>::Err(CreateBatchError::UnsupportedEncoding)
            && final(state)@ == old(state)@,
        is_supported_encoding(encoding_label(opt_string_view(init.encoding_type))) && old(
            state,
        )@.next_batch_id == u128::MAX ==> r == Result::<u128, CreateBatchError>::Err(
            CreateBatchError::IdOverflow,
        ) && final(state)@ == old(state)@,
        is_supported_encoding(encoding_label(opt_string_view(init.encoding_type))) && old(
            state,
        )@.next_batch_id < u128::MAX ==> {
            let sw = swept_state(old(state)@, now);
            let id = (old(state)@.next_batch_id + 1) as u128;
            &&& r == Result::<u128, CreateBatchError>::Ok(id)
            &&& final(state)@.batches == pupsert(sw.batches, id, batch_of(init, caller@, now))
            &&& final(state)@.chunks == sw.chunks
            &&& final(state)@.assets == old(state)@.assets
            &&& final(state)@.next_batch_id == id
            &&& final(state)@.next_chunk_id == old(state)@.next_chunk_id
        },
{
    secure_create_batch_impl(state, caller, init, now)
}

fn secure_create_batch_impl(
    state: &mut State,
    caller: &Principal,
    init: InitAssetKey,
    now: u64,
) -> (r: Result<u128, CreateBatchError>)
    requires
        old(state).wf(),
    ensures
        final(state).wf(),
        !is_supported_encoding(encoding_label(opt_string_view(init.encoding_type))) ==> r
            == Result::<u128, CreateBatchError>::Err(CreateBatchError::UnsupportedEncoding)
            && final(state)@ == old(state)@,
        is_supported_encoding(encoding_label(opt_string_view(init.encoding_type))) && old(
            state,
        )@.next_batch_id == u128::MAX ==> r == Result::<u128, CreateBatchError>::Err(
            CreateBatchError::IdOverflow,
        ) && final(state)@ == old(state)@,
        is_supported_encoding(encoding_label(opt_string_view(init.encoding_type))) && old(
            state,
        )@.next_batch_id < u128::MAX ==> {
            let sw = swept_state(old(state)@, now);
            let id = (old(state)@.next_batch_id + 1) as u128;
            &&& r == Result::<u128, CreateBatchError>::Ok(id)
            &&& final(state)@.batches == pupsert(sw.batches, id, batch_of(init, caller@, now))
            &&& final(state)@.chunks == sw.chunks
            &&& final(state)@.assets == old(state)@.assets
            &&& final(state)@.next_batch_id == id
            &&& final(state)@.next_chunk_id == old(state)@.next_chunk_id
        },
{
    // assert the encoding label is supported before allocating anything
    match get_encoding_type(&init.encoding_type) {
        Result::Err(e) => Result::Err(e),
        Result::Ok(_) => {
            if state.next_batch_id == u128::MAX {
                return Result::Err(CreateBatchError::IdOverflow);
            }
            Result::Ok(create_batch_impl(state, caller, init, now))
        },
    }
}

fn create_batch_impl(state: &mut State, caller: &Principal, init: InitAssetKey, now: u64) -> (r:
    u128)
    requires
        old(state).wf(),
        old(state)@.next_batch_id < u128::MAX,
        is_supported_encoding(encoding_label(opt_string_view(init.encoding_type))),
    ensures
        final(state).wf(),
        r == old(state)@.next_batch_id + 1,
        final(state)@.batches == pupsert(
            swept_state(old(state)@, now).batches,
            r,
            batch_of(init, caller@, now),
        ),
        final(state)@.chunks == swept_state(old(state)@, now).chunks,
        final(state)@.assets == old(state)@.assets,
        final(state)@.next_batch_id == r,
        final(state)@.next_chunk_id == old(state)@.next_chunk_id,
{
    clear_expired_batches(state, now);
    let ghost sw = state@;
    state.next_batch_id = state.next_batch_id + 1;
    let batch_id = state.next_batch_id;
    let expires_at = saturating_expiry(now);
    let InitAssetKey { token, name, collection, encoding_type, full_path, description } = init;
    let key = AssetKey {
        full_path,
        collection,
        owner: caller.clone(),
        token,
        name,
        description,
    };
    let batch = Batch { key, expires_at, encoding_type };
    crate::runtime::insert_batch(state, batch_id, batch);
    proof {
        let p = |e: (u128, BatchV)| e.0 <= sw.next_batch_id + 1 && batch_wf(e.1);
        assert(forall|i: int| 0 <= i < sw.batches.len() ==> p(#[trigger] sw.batches[i]));
        lemma_pupsert_entries(sw.batches, batch_id, batch_of(init, caller@, now), p);
        lemma_pupsert_unique(sw.batches, batch_id, batch_of(init, caller@, now));
    }
    batch_id
}

/// Upload one chunk into an open batch: the uploader must own the batch; the
/// batch's expiry slides forward; the chunk is stored under the next chunk
/// id, with the caller's order id or the chunk id itself as its order.
pub fn create_chunk(
    state: &mut State,
    caller: &Principal,
    chunk: UploadChunk,
    now: u64,
) -> (r: Result<u128, CreateChunkError>)
    requires
        old(state).wf(),
    ensures
        final(state).wf(),
        ({
            let st0 = old(state)@;
            match plookup(st0.batches, chunk.batch_id) {
                Option::None => r == Result::<u128, CreateChunkError>::Err(
                    CreateChunkError::BatchNotFound,
                ) && final(state)@ == st0,
                Option::Some(b) => {
                    if b.key.owner != caller@ {
                        r == Result::<u128, CreateChunkError>::Err(CreateChunkError::NotOwner)
                            && final(state)@ == st0
                    } else if st0.next_chunk_id == u128::MAX {
                        r == Result::<u128, CreateChunkError>::Err(CreateChunkError::IdOverflow)
                            && final(state)@ == st0
                    } else {
                        let id = (st0.next_chunk_id + 1) as u128;
                        &&& r == Result::<u128, CreateChunkError>::Ok(id)
                        &&& final(state)@.batches == pupsert(
                            st0.batches,
                            chunk.batch_id,
                            (BatchV {
                                key: b.key,
                                expires_at: expiry_at(now),
                                encoding_type: b.encoding_type,
                            }),
                        )
                        &&& final(state)@.chunks == pupsert(
                            st0.chunks,
                            id,
                            (ChunkV {
                                batch_id: chunk.batch_id,
                                content: chunk.content@,
                                order_id: match chunk.order_id {
                                    Option::Some(o) => o,
                                    Option::None => id,
                                },
                            }),
                        )
                        &&& final(state)@.assets == st0.assets
                        &&& final(state)@.next_batch_id == st0.next_batch_id
                        &&& final(state)@.next_chunk_id == id
                    }
                },
            }
        }),
{
    create_chunk_impl(state, caller, chunk, now)
}

fn create_chunk_impl(
    state: &mut State,
    caller: &Principal,
    chunk: UploadChunk,
    now: u64,
) -> (r: Result<u128, CreateChunkError>)
    requires
        old(state).wf(),
    ensures
        final(state).wf(),
        ({
            let st0 = old(state)@;
            match plookup(st0.batches, chunk.batch_id) {
                Option::None => r == Result::<u128, CreateChunkError>::Err(
                    CreateChunkError::BatchNotFound,
                ) && final(state)@ == st0,
                Option::Some(b) => {
                    if b.key.owner != caller@ {
                        r == Result::<u128, CreateChunkError>::Err(CreateChunkError::NotOwner)
                            && final(state)@ == st0
                    } else if st0.next_chunk_id == u128::MAX {
                        r == Result::<u128, CreateChunkError>::Err(CreateChunkError::IdOverflow)
                            && final(state)@ == st0
                    } else {
                        let id = (st0.next_chunk_id + 1) as u128;
                        &&& r == Result::<u128, CreateChunkError>::Ok(id)
                        &&& final(state)@.batches == pupsert(
                            st0.batches,
                            chunk.batch_id,
                            (BatchV {
                                key: b.key,
                                expires_at: expiry_at(now),
                                encoding_type: b.encoding_type,
                            }),
                        )
                        &&& final(state)@.chunks == pupsert(
                            st0.chunks,
                            id,
                            (ChunkV {
                                batch_id: chunk.batch_id,
                                content: chunk.content@,
                                order_id: match chunk.order_id {
                                    Option::Some(o) => o,
                                    Option::None => id,
                                },
                            }),
                        )
                        &&& final(state)@.assets == st0.assets
                        &&& final(state)@.next_batch_id == st0.next_batch_id
                        &&& final(state)@.next_chunk_id == id
                    }
                },
            }
        }),
{
    let UploadChunk { batch_id, content, order_id } = chunk;
    let b = match crate::runtime::get_batch(state, batch_id) {
        Option::None => {
            return Result::Err(CreateChunkError::BatchNotFound);
        },
        Option::Some(b) => b,
    };
    if !caller.eq_principal(&b.key.owner) {
        return Result::Err(CreateChunkError::NotOwner);
    }
    if state.next_chunk_id == u128::MAX {
        return Result::Err(CreateChunkError::IdOverflow);
    }
    proof {
        lemma_plookup_is_entry(state@.batches, batch_id);
    }
    let expires_at = saturating_expiry(now);
    let refreshed = Batch { key: b.key, expires_at, encoding_type: b.encoding_type };
    crate::runtime::insert_batch(state, batch_id, refreshed);
    state.next_chunk_id = state.next_chunk_id + 1;
    let chunk_id = state.next_chunk_id;
    let new_chunk = Chunk {
        batch_id,
        content,
        order_id: match order_id {
            Option::Some(o) => o,
            Option::None => chunk_id,
        },
    };
    let ghost cv = new_chunk@;
    crate::runtime::insert_chunk(state, chunk_id, new_chunk);
    proof {
        let st0 = old(state)@;
        let bv = plookup(st0.batches, batch_id)->Some_0;
        let bp = |e: (u128, BatchV)| e.0 <= st0.next_batch_id && batch_wf(e.1);
        assert(forall|i: int| 0 <= i < st0.batches.len() ==> bp(#[trigger] st0.batches[i]));
        assert(batch_wf(bv));
        lemma_pupsert_entries(
            st0.batches,
            batch_id,
            BatchV { key: bv.key, expires_at: expiry_at(now), encoding_type: bv.encoding_type },
            bp,
        );
        lemma_pupsert_unique(
            st0.batches,
            batch_id,
            BatchV { key: bv.key, expires_at: expiry_at(now), encoding_type: bv.encoding_type },
        );
        let cp = |e: (u128, ChunkV)| e.0 <= st0.next_chunk_id + 1;
        assert(forall|i: int| 0 <= i < st0.chunks.len() ==> cp(#[trigger] st0.chunks[i]));
        lemma_pupsert_entries(st0.chunks, chunk_id, cv, cp);
        lemma_pupsert_unique(st0.chunks, chunk_id, cv);
    }
    Result::Ok(chunk_id)
}

/// The asset at `full_path`, if any, after the access gate.
pub fn get_public_asset(state: &State, full_path: String, token: Option<String>) -> (r: Option<
    Asset,
>)
    ensures
        match r {
            Option::Some(a) => protected_asset(
                slookup(state@.assets, full_path@),
                opt_string_view(token),
            ) == Option::Some(a@),
            Option::None => protected_asset(
                slookup(state@.assets, full_path@),
                opt_string_view(token),
            ) is None,
        },
{
    let asset = crate::state::get_public_asset(state, &full_path);
    match asset {
        Option::None => Option::None,
        Option::Some(asset) => {
            let has_token = asset.key.token.is_some();
            if !has_token {
                return Option::Some(asset);
            }
            let stored = match &asset.key.token {
                Option::Some(t) => t.clone(),
                Option::None => String::new(),
            };
            get_token_protected_asset(asset, &stored, token)
        },
    }
}

fn get_token_protected_asset(asset: Asset, asset_token: &String, token: Option<String>) -> (r:
    Option<Asset>)
    requires
        asset@.key.token == Option::Some(asset_token@),
    ensures
        match r {
            Option::Some(a) => a@ == asset@ && (opt_string_view(token) matches Option::Some(s)
                && s == asset_token@),
            Option::None => match opt_string_view(token) {
                Option::None => true,
                Option::Some(s) => s != asset_token@,
            },
        },
{
    match token {
        Option::None => Option::None,
        Option::Some(token) => {
            if string_eq(&token, asset_token) {
                return Option::Some(asset);
            }
            Option::None
        },
    }
}


pub open spec fn chunks_list_view(v: Seq<Chunk>) -> Seq<ChunkV> {
    v.map_values(|c: Chunk| c@)
}

pub open spec fn encodings_view(v: Seq<(String, AssetEncoding)>) -> Seq<
    (Seq<char>, AssetEncodingV),
> {
    v.map_values(|p: (String, AssetEncoding)| (p.0@, p.1@))
}

/// What a commit returns and what it does to the store, once the batch was
/// found, owned, unexpired and collection-compatible: the first chunk that
/// fails to resolve rejects the commit untouched; an empty chunk list is
/// rejected; otherwise the asset is published and the batch is cleared.
pub open spec fn commit_outcome(
    st0: crate::types::StateV,
    batch_id: u128,
    ids: Seq<u128>,
    headers: Seq<(Seq<char>, Seq<char>)>,
    b: BatchV,
    now: u64,
    r: Result<(), CommitBatchError>,
    stf: crate::types::StateV,
) -> bool {
    match resolve_chunks(st0.chunks, ids, batch_id) {
        Result::Err(e) => r == Result::<(), CommitBatchError>::Err(e) && stf == st0,
        Result::Ok(cs) => if cs.len() == 0 {
            r == Result::<(), CommitBatchError>::Err(CommitBatchError::Empty) && stf == st0
        } else {
            r == Result::<(), CommitBatchError>::Ok(()) && stf == committed_state(
                st0,
                batch_id,
                b,
                ids,
                headers,
                sort_by_order(cs),
                now,
            )
        },
    }
}

/// Commit a batch: validate ownership, expiry, collection and every chunk,
/// then assemble, hash and publish the asset and clear the batch.
pub fn commit_batch(
    state: &mut State,
    caller: &Principal,
    commit: CommitBatch,
    now: u64,
) -> (r: Result<(), CommitBatchError>)
    requires
        old(state).wf(),
    ensures
        final(state).wf(),
        ({
            let st0 = old(state)@;
            let stf = final(state)@;
            match plookup(st0.batches, commit.batch_id) {
                Option::None => r == Result::<(), CommitBatchError>::Err(
                    CommitBatchError::BatchNotFound,
                ) && stf == st0,
                Option::Some(b) => {
                    if b.key.owner != caller@ {
                        r == Result::<(), CommitBatchError>::Err(CommitBatchError::NotOwner)
                            && stf == st0
                    } else if now > b.expires_at {
                        r == Result::<(), CommitBatchError>::Err(CommitBatchError::Expired)
                            && stf == swept_state(st0, now)
                    } else if (slookup(st0.assets, b.key.full_path) matches Option::Some(a)
                        && a.key.collection != b.key.collection) {
                        r == Result::<(), CommitBatchError>::Err(
                            CommitBatchError::CollectionMismatch,
                        ) && stf == st0
                    } else {
                        commit_outcome(
                            st0,
                            commit.batch_id,
                            commit.chunk_ids@,
                            headers_view(commit.headers@),
                            b,
                            now,
                            r,
                            stf,
                        )
                    }
                },
            }
        }),
{
    let b = match crate::runtime::get_batch(state, commit.batch_id) {
        Option::None => {
            return Result::Err(CommitBatchError::BatchNotFound);
        },
        Option::Some(b) => b,
    };
    secure_commit_chunks(state, caller, commit, &b, now)
}

fn secure_commit_chunks(
    state: &mut State,
    caller: &Principal,
    commit: CommitBatch,
    batch: &Batch,
    now: u64,
) -> (r: Result<(), CommitBatchError>)
    requires
        old(state).wf(),
        plookup(old(state)@.batches, commit.batch_id) == Option::Some(batch@),
    ensures
        final(state).wf(),
        ({
            let st0 = old(state)@;
            let stf = final(state)@;
            if batch@.key.owner != caller@ {
                r == Result::<(), CommitBatchError>::Err(CommitBatchError::NotOwner) && stf == st0
            } else if now > batch@.expires_at {
                r == Result::<(), CommitBatchError>::Err(CommitBatchError::Expired) && stf
                    == swept_state(st0, now)
            } else if (slookup(st0.assets, batch@.key.full_path) matches Option::Some(a)
                && a.key.collection != batch@.key.collection) {
                r == Result::<(), CommitBatchError>::Err(CommitBatchError::CollectionMismatch)
                    && stf == st0
            } else {
                commit_outcome(
                    st0,
                    commit.batch_id,
                    commit.chunk_ids@,
                    headers_view(commit.headers@),
                    batch@,
                    now,
                    r,
                    stf,
                )
            }
        }),
{
    // the one that started the batch must be the one that commits it
    if !caller.eq_principal(&batch.key.owner) {
        return Result::Err(CommitBatchError::NotOwner);
    }
    if now > batch.expires_at {
        clear_expired_batches(state, now);
        return Result::Err(CommitBatchError::Expired);
    }
    let current = crate::state::get_asset(state, &batch.key.full_path);
    match current {
        Option::None => commit_chunks(state, commit, batch, now),
        Option::Some(current) => secure_commit_chunks_update(state, commit, batch, current, now),
    }
}

fn secure_commit_chunks_update(
    state: &mut State,
    commit: CommitBatch,
    batch: &Batch,
    current: Asset,
    now: u64,
) -> (r: Result<(), CommitBatchError>)
    requires
        old(state).wf(),
        plookup(old(state)@.batches, commit.batch_id) == Option::Some(batch@),
        slookup(old(state)@.assets, batch@.key.full_path) == Option::Some(current@),
    ensures
        final(state).wf(),
        ({
            let st0 = old(state)@;
            let stf = final(state)@;
            if current@.key.collection != batch@.key.collection {
                r == Result::<(), CommitBatchError>::Err(CommitBatchError::CollectionMismatch)
                    && stf == st0
            } else {
                commit_outcome(
                    st0,
                    commit.batch_id,
                    commit.chunk_ids@,
                    headers_view(commit.headers@),
                    batch@,
                    now,
                    r,
                    stf,
                )
            }
        }),
{
    // the collection of the existing asset must match the one committed
    if !string_eq(&batch.key.collection, &current.key.collection) {
        return Result::Err(CommitBatchError::CollectionMismatch);
    }
    commit_chunks(state, commit, batch, now)
}

fn commit_chunks(state: &mut State, commit: CommitBatch, batch: &Batch, now: u64) -> (r: Result<
    (),
    CommitBatchError,
>)
    requires
        old(state).wf(),
        plookup(old(state)@.batches, commit.batch_id) == Option::Some(batch@),
    ensures
        final(state).wf(),
        commit_outcome(
            old(state)@,
            commit.batch_id,
            commit.chunk_ids@,
            headers_view(commit.headers@),
            batch@,
            now,
            r,
            final(state)@,
        ),
{
    let CommitBatch { chunk_ids, batch_id, headers } = commit;
    let ghost st0 = state@;

    // resolve every listed chunk against this batch
    let mut collected: Vec<Chunk> = Vec::new();
    proof {
        assert(chunk_ids@.take(0) =~= Seq::<u128>::empty());
        assert(chunks_list_view(collected@) =~= Seq::<ChunkV>::empty());
        assert(resolve_chunks(st0.chunks, chunk_ids@.take(0), batch_id) == Result::<
            Seq<ChunkV>,
            CommitBatchError,
        >::Ok(Seq::empty()));
    }
    let mut i: usize = 0;
    while i < chunk_ids.len()
        invariant
            0 <= i <= chunk_ids.len(),
            chunk_ids@ == commit.chunk_ids@,
            batch_id == commit.batch_id,
            st0 == state@,
            st0 == old(state)@,
            old(state).wf(),
            state.wf(),
            resolve_chunks(st0.chunks, chunk_ids@.take(i as int), batch_id) == Result::<
                Seq<ChunkV>,
                CommitBatchError,
            >::Ok(chunks_list_view(collected@)),
        decreases chunk_ids.len() - i,
    {
        proof {
            assert(chunk_ids@.take(i + 1).drop_last() =~= chunk_ids@.take(i as int));
            assert(chunk_ids@.take(i + 1).last() == chunk_ids@[i as int]);
        }
        let ghost pre = chunks_list_view(collected@);
        match crate::runtime::get_chunk(state, chunk_ids[i]) {
            Option::None => {
                proof {
                    assert(resolve_chunks(st0.chunks, chunk_ids@.take(i + 1), batch_id)
                        == Result::<Seq<ChunkV>, CommitBatchError>::Err(
                        CommitBatchError::ChunkNotFound,
                    ));
                    lemma_resolve_prefix_err(st0.chunks, chunk_ids@, i as int, batch_id);
                }
                return Result::Err(CommitBatchError::ChunkNotFound);
            },
            Option::Some(c) => {
                if c.batch_id != batch_id {
                    proof {
                        assert(resolve_chunks(st0.chunks, chunk_ids@.take(i + 1), batch_id)
                            == Result::<Seq<ChunkV>, CommitBatchError>::Err(
                            CommitBatchError::ChunkOutsideBatch,
                        ));
                        lemma_resolve_prefix_err(st0.chunks, chunk_ids@, i as int, batch_id);
                    }
                    return Result::Err(CommitBatchError::ChunkOutsideBatch);
                }
                collected.push(c);
                assert(chunks_list_view(collected@) =~= pre.push(
                    plookup(st0.chunks, chunk_ids@[i as int])->Some_0,
                ));
                assert(resolve_chunks(st0.chunks, chunk_ids@.take(i + 1), batch_id) == Result::<
                    Seq<ChunkV>,
                    CommitBatchError,
                >::Ok(chunks_list_view(collected@)));
            },
        }
        i += 1;
    }
    assert(chunk_ids@.take(chunk_ids.len() as int) =~= chunk_ids@);
    let ghost resolved = chunks_list_view(collected@);

    if collected.len() == 0 {
        return Result::Err(CommitBatchError::Empty);
    }

    // order the chunks, gather their bytes, and build the encoding record
    let sorted = sort_chunks(collected);
    let ghost sorted_cs = chunks_list_view(sorted@);
    let mut contents: Vec<Vec<u8>> = Vec::new();
    let mut j: usize = 0;
    while j < sorted.len()
        invariant
            0 <= j <= sorted.len(),
            contents@.len() == j,
            forall|k: int| 0 <= k < j ==> (#[trigger] contents@[k])@ == sorted@[k]@.content,
        decreases sorted.len() - j,
    {
        contents.push(clone_bytes(&sorted[j].content));
        j += 1;
    }
    assert(contents.deep_view() =~~= contents_of(sorted_cs));
    let encoding = build_encoding(contents, now);

    let label = match get_encoding_type(&batch.encoding_type) {
        Result::Ok(label) => label,
        Result::Err(_) => {
            proof {
                lemma_plookup_is_entry(st0.batches, batch_id);
            }
            vstd::pervasive::unreached()
        },
    };

    // build or merge the asset and publish it
    let current = crate::state::get_asset(state, &batch.key.full_path);
    let ghost prev = slookup(st0.assets, batch@.key.full_path);
    let mut asset = match current {
        Option::None => Asset {
            key: batch.key.clone(),
            headers,
            encodings: Vec::new(),
            created_at: now,
            updated_at: now,
        },
        Option::Some(existing) => Asset {
            key: batch.key.clone(),
            headers,
            encodings: existing.encodings,
            created_at: existing.created_at,
            updated_at: now,
        },
    };
    let ghost hview = headers_view(asset.headers@);
    upsert_encoding(&mut asset.encodings, label, encoding);
    proof {
        if prev is None {
            assert(encodings_view(Seq::<(String, AssetEncoding)>::empty()) =~= Seq::<
                (Seq<char>, AssetEncodingV),
            >::empty());
        }
        assert(asset@ == merged_asset(
            prev,
            batch@.key,
            hview,
            encoding_label(batch@.encoding_type),
            encoding_of(contents_of(sorted_cs), now),
            now,
        ));
    }
    crate::state::insert_asset(state, &batch.key.full_path, &asset);
    crate::runtime::clear_batch(state, batch_id, &chunk_ids);

    proof {
        let stf = final(state)@;
        let target = committed_state(
            st0,
            batch_id,
            batch@,
            chunk_ids@,
            headers_view(headers@),
            sort_by_order(resolved),
            now,
        );
        assert(stf.batches == target.batches);
        assert(stf.chunks == target.chunks);
        assert(stf.assets == target.assets);
        assert(stf == target);

        // the invariant survives: removals keep it, and the published asset
        // has only non-empty encodings
        let bp = |e: (u128, BatchV)| e.0 <= st0.next_batch_id && batch_wf(e.1);
        assert(forall|k: int| 0 <= k < st0.batches.len() ==> bp(#[trigger] st0.batches[k]));
        lemma_premove_entries(st0.batches, batch_id, bp);
        lemma_premove_unique(st0.batches, batch_id);
        let cp = |e: (u128, ChunkV)| e.0 <= st0.next_chunk_id;
        assert(forall|k: int| 0 <= k < st0.chunks.len() ==> cp(#[trigger] st0.chunks[k]));
        lemma_premove_all_entries(st0.chunks, chunk_ids@, cp);
        lemma_premove_all_unique(st0.chunks, chunk_ids@);
        let ep = |e: (Seq<char>, AssetEncodingV)| e.1.content_chunks.len() >= 1;
        if prev is Some {
            lemma_slookup_is_entry(st0.assets, batch@.key.full_path);
            assert(asset_wf(prev->Some_0));
            assert(forall|k: int|
                0 <= k < prev->Some_0.encodings.len() ==> ep(#[trigger] prev->Some_0.encodings[k]));
            lemma_supsert_entries(
                prev->Some_0.encodings,
                encoding_label(batch@.encoding_type),
                encoding_of(contents_of(sorted_cs), now),
                ep,
            );
        } else {
            lemma_supsert_entries(
                Seq::<(Seq<char>, AssetEncodingV)>::empty(),
                encoding_label(batch@.encoding_type),
                encoding_of(contents_of(sorted_cs), now),
                ep,
            );
        }
        assert(asset_wf(asset@));
        let ap = |e: (Seq<char>, AssetV)| asset_wf(e.1);
        assert(forall|k: int| 0 <= k < st0.assets.len() ==> ap(#[trigger] st0.assets[k]));
        lemma_supsert_entries(st0.assets, batch@.key.full_path, asset@, ap);
        lemma_supsert_unique(st0.assets, batch@.key.full_path, asset@);
    }
    Result::Ok(())
}

/// Insert the chunks one by one into their place: the result is ordered by
/// ascending order id, and equal order ids keep their relative order.
fn sort_chunks(chunks: Vec<Chunk>) -> (r: Vec<Chunk>)
    ensures
        chunks_list_view(r@) == sort_by_order(chunks_list_view(chunks@)),
{
    let ghost cs = chunks_list_view(chunks@);
    let mut out: Vec<Chunk> = Vec::new();
    let mut i: usize = 0;
    while i < chunks.len()
        invariant
            0 <= i <= chunks.len(),
            cs == chunks_list_view(chunks@),
            chunks_list_view(out@) == sort_by_order(cs.take(i as int)),
        decreases chunks.len() - i,
    {
        proof {
            lemma_sort_ordered(cs.take(i as int));
            assert(cs.take(i + 1).drop_last() =~= cs.take(i as int));
        }
        let c = chunks[i].clone();
        let ghost ov = chunks_list_view(out@);
        let mut j: usize = out.len();
        while j > 0 && out[j - 1].order_id > c.order_id
            invariant
                0 <= j <= out.len(),
                ov == chunks_list_view(out@),
                forall|k: int| j <= k < ov.len() ==> (#[trigger] ov[k]).order_id > c@.order_id,
            decreases j,
        {
            j -= 1;
        }
        proof {
            lemma_sorted_insert_at(ov, c@, j as int);
        }
        out.insert(j, c);
        assert(chunks_list_view(out@) =~= ov.take(j as int) + seq![c@] + ov.skip(j as int));
        i += 1;
    }
    assert(cs.take(chunks.len() as int) =~= cs);
    out
}

/// Compute the encoding record: total size, concatenated bytes, digest.
fn build_encoding(content_chunks: Vec<Vec<u8>>, now: u64) -> (r: AssetEncoding)
    ensures
        r@ == encoding_of(content_chunks.deep_view(), now),
{
    let ghost cs = content_chunks.deep_view();
    let mut total: u128 = 0;
    let mut i: usize = 0;
    while i < content_chunks.len()
        invariant
            0 <= i <= content_chunks.len(),
            cs == content_chunks.deep_view(),
            total == total_size(cs.take(i as int)),
            total <= (i as u128) * (usize::MAX as u128),
        decreases content_chunks.len() - i,
    {
        proof {
            assert(cs.take(i + 1).drop_last() =~= cs.take(i as int));
            assert(cs[i as int] =~= content_chunks@[i as int]@);
        }
        let l = content_chunks[i].len();
        proof {
            assert(total + (l as u128) <= ((i + 1) as u128) * (usize::MAX as u128)) by (nonlinear_arith)
                requires
                    total <= (i as u128) * (usize::MAX as u128),
                    l <= usize::MAX,
                    i >= 0,
            ;
            assert(((i + 1) as u128) * (usize::MAX as u128) < u128::MAX) by (nonlinear_arith)
                requires
                    0 <= i < usize::MAX,
            ;
        }
        total = total + (l as u128);
        i += 1;
    }
    assert(cs.take(content_chunks.len() as int) =~= cs);

    let mut flat: Vec<u8> = Vec::new();
    let mut i2: usize = 0;
    while i2 < content_chunks.len()
        invariant
            0 <= i2 <= content_chunks.len(),
            cs == content_chunks.deep_view(),
            flat@ == concat_bytes(cs.take(i2 as int)),
        decreases content_chunks.len() - i2,
    {
        proof {
            assert(cs.take(i2 + 1).drop_last() =~= cs.take(i2 as int));
            assert(cs[i2 as int] =~= content_chunks@[i2 as int]@);
        }
        let chunk = &content_chunks[i2];
        let mut j: usize = 0;
        while j < chunk.len()
            invariant
                0 <= j <= chunk.len(),
                chunk@ == cs[i2 as int],
                0 <= i2 < cs.len(),
                flat@ =~= concat_bytes(cs.take(i2 as int)) + chunk@.take(j as int),
            decreases chunk.len() - j,
        {
            flat.push(chunk[j]);
            assert(chunk@.take(j + 1) =~= chunk@.take(j as int).push(chunk@[j as int]));
            j += 1;
        }
        assert(chunk@.take(chunk.len() as int) =~= chunk@);
        assert(flat@ =~= concat_bytes(cs.take(i2 + 1)));
        i2 += 1;
    }
    assert(cs.take(content_chunks.len() as int) =~= cs);
    let digest = crate::hash::sha256(&flat);
    AssetEncoding { modified: now, content_chunks, total_length: total, sha256: digest }
}

fn upsert_encoding(encodings: &mut Vec<(String, AssetEncoding)>, label: String, enc: AssetEncoding)
    ensures
        encodings_view(final(encodings)@) == supsert(
            encodings_view(old(encodings)@),
            label@,
            enc@,
        ),
{
    let ghost m = encodings_view(encodings@);
    let mut i: usize = 0;
    while i < encodings.len()
        invariant
            0 <= i <= encodings.len(),
            m == encodings_view(encodings@),
            m == encodings_view(old(encodings)@),
            forall|j: int| 0 <= j < i ==> (#[trigger] m[j]).0 != label@,
        decreases encodings.len() - i,
    {
        if string_eq(&encodings[i].0, &label) {
            proof {
                crate::model::lemma_supsert_found(m, label@, enc@, i as int);
            }
            encodings.set(i, (label, enc));
            assert(encodings_view(encodings@) =~= m.update(i as int, (label@, enc@)));
            return ;
        }
        i += 1;
    }
    proof {
        crate::model::lemma_supsert_missing(m, label@, enc@);
    }
    encodings.push((label, enc));
    assert(encodings_view(encodings@) =~= m.push((label@, enc@)));
}


/// The first candidate path whose asset exists and passes the access gate.
pub open spec fn resolve_candidates(
    assets: Seq<(Seq<char>, AssetV)>,
    paths: Seq<Seq<char>>,
    token: Option<Seq<char>>,
) -> Option<AssetV>
    decreases paths.len(),
{
    if paths.len() == 0 {
        Option::None
    } else {
        match protected_asset(slookup(assets, paths[0]), token) {
            Option::Some(a) => Option::Some(a),
            Option::None => resolve_candidates(assets, paths.skip(1), token),
        }
    }
}

pub proof fn lemma_resolve_candidates_skip(
    assets: Seq<(Seq<char>, AssetV)>,
    paths: Seq<Seq<char>>,
    token: Option<Seq<char>>,
    i: int,
)
    requires
        0 <= i <= paths.len(),
        forall|j: int|
            0 <= j < i ==> protected_asset(slookup(assets, #[trigger] paths[j]), token) is None,
    ensures
        resolve_candidates(assets, paths, token) == resolve_candidates(
            assets,
            paths.skip(i),
            token,
        ),
    decreases i,
{
    if i > 0 {
        lemma_resolve_candidates_skip(assets, paths.skip(1), token, i - 1);
        assert(paths.skip(1).skip(i - 1) =~= paths.skip(i));
    } else {
        assert(paths.skip(0) =~= paths);
    }
}

/// Whatever URL resolution returns came out of the asset store, so it meets
/// the store's asset invariant.
pub proof fn lemma_resolve_candidates_wf(
    assets: Seq<(Seq<char>, AssetV)>,
    paths: Seq<Seq<char>>,
    token: Option<Seq<char>>,
)
    requires
        forall|i: int| 0 <= i < assets.len() ==> asset_wf((#[trigger] assets[i]).1),
    ensures
        resolve_candidates(assets, paths, token) matches Option::Some(a) ==> asset_wf(a),
    decreases paths.len(),
{
    if paths.len() > 0 {
        if protected_asset(slookup(assets, paths[0]), token) is Some {
            lemma_slookup_is_entry(assets, paths[0]);
        } else {
            lemma_resolve_candidates_wf(assets, paths.skip(1), token);
        }
    }
}

pub open spec fn opt_asset_view(o: Option<Asset>) -> Option<AssetV> {
    match o {
        Option::None => Option::None,
        Option::Some(a) => Option::Some(a@),
    }
}

/// Resolve a request URL to an asset: the URL is parsed against the fixed
/// base, the alias candidates of its path are tried in order through the
/// access gate, then the literal path; the first hit wins. The returned
/// `url` is always the parsed path, not the alias that matched.
pub fn get_public_asset_for_url(state: &State, url: String) -> (r: Result<
    crate::types::PublicAsset,
    String,
>)
    ensures
        url@.len() == 0 ==> (r matches Result::Err(e) && e@ == "No url provided."@),
        url@.len() > 0 && !crate::url::url_parse_ok(crate::url::absolute_url_of(url@)) ==> (
        r matches Result::Err(e) && e@ == "Url "@ + url@ + " cannot be parsed."@),
        url@.len() > 0 && crate::url::url_parse_ok(crate::url::absolute_url_of(url@)) ==> (
        r matches Result::Ok(p) && {
            let path = crate::url::url_parse_path(crate::url::absolute_url_of(url@));
            let token = crate::url::first_token(
                crate::url::url_parse_query_pairs(crate::url::absolute_url_of(url@)),
            );
            &&& p.url@ == path
            &&& opt_asset_view(p.asset) == resolve_candidates(
                state@.assets,
                crate::url::alternative_paths(path).push(path),
                token,
            )
        }),
{
    if url.as_str().is_empty() {
        return Result::Err(String::from_str("No url provided."));
    }
    let mapped = match crate::url::map_url(&url) {
        Result::Err(e) => {
            return Result::Err(e);
        },
        Result::Ok(m) => m,
    };
    let crate::types::MapUrl { path, token } = mapped;
    let ghost pathv = path@;
    let ghost tokenv = opt_string_view(token);
    let ghost cands = crate::url::alternative_paths(pathv).push(pathv);
    let alternative_paths = crate::url::map_alternative_paths(&path);
    proof {
        assert(cands.len() == alternative_paths@.len() + 1);
        assert(forall|j: int|
            0 <= j < alternative_paths@.len() ==> cands[j] == crate::url::strings_view(
                alternative_paths@,
            )[j]);
    }
    let mut i: usize = 0;
    while i < alternative_paths.len()
        invariant
            0 <= i <= alternative_paths.len(),
            url@.len() > 0,
            crate::url::url_parse_ok(crate::url::absolute_url_of(url@)),
            pathv == crate::url::url_parse_path(crate::url::absolute_url_of(url@)),
            tokenv == crate::url::first_token(
                crate::url::url_parse_query_pairs(crate::url::absolute_url_of(url@)),
            ),
            pathv == path@,
            tokenv == opt_string_view(token),
            cands == crate::url::alternative_paths(pathv).push(pathv),
            crate::url::strings_view(alternative_paths@) == crate::url::alternative_paths(pathv),
            cands.len() == alternative_paths@.len() + 1,
            forall|j: int|
                0 <= j < alternative_paths@.len() ==> cands[j]
                    == (#[trigger] alternative_paths@[j])@,
            forall|j: int|
                0 <= j < i ==> protected_asset(
                    slookup(state@.assets, #[trigger] cands[j]),
                    tokenv,
                ) is None,
        decreases alternative_paths.len() - i,
    {
        let supplied = crate::text::clone_opt_string(&token);
        proof {
            assert(opt_string_view(supplied) == tokenv);
        }
        let asset = get_public_asset(state, alternative_paths[i].clone(), supplied);
        match asset {
            Option::None => {
            },
            Option::Some(asset) => {
                proof {
                    lemma_resolve_candidates_skip(state@.assets, cands, tokenv, i as int);
                    assert(cands.skip(i as int)[0] == cands[i as int]);
                }
                return Result::Ok(
                    crate::types::PublicAsset { url: path, asset: Option::Some(asset) },
                );
            },
        }
        i += 1;
    }
    proof {
        lemma_resolve_candidates_skip(
            state@.assets,
            cands,
            tokenv,
            alternative_paths@.len() as int,
        );
        assert(cands.skip(alternative_paths@.len() as int) =~= seq![pathv]);
        assert(seq![pathv][0] == pathv);
        assert(seq![pathv].skip(1) =~= Seq::<Seq<char>>::empty());
    }
    let asset = get_public_asset(state, path.clone(), token);
    match asset {
        Option::None => {
            proof {
                assert(resolve_candidates(state@.assets, seq![pathv], tokenv)
                    == resolve_candidates(state@.assets, seq![pathv].skip(1), tokenv));
                assert(resolve_candidates(state@.assets, seq![pathv].skip(1), tokenv) is None);
            }
            Result::Ok(crate::types::PublicAsset { url: path, asset: Option::None })
        },
        Option::Some(asset) => {
            proof {
                assert(resolve_candidates(state@.assets, seq![pathv], tokenv) == Option::Some(
                    asset@,
                ));
            }
            Result::Ok(crate::types::PublicAsset { url: path, asset: Option::Some(asset) })
        },
    }
}

} // verus!
