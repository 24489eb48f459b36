//! Laws of the store, stated and proved over the model that the public
//! functions' contracts use.

use crate::model::committed_state;
use crate::model::concat_bytes;
use crate::model::contents_of;
use crate::model::encoding_label;
use crate::model::encoding_of;
use crate::model::lemma_slookup_supsert;
use crate::model::lemma_sort_of_ordered;
use crate::model::lemma_sweep_batches_lookup;
use crate::model::ordered;
use crate::model::plookup;
use crate::model::punique;
use crate::model::slookup;
use crate::model::sort_by_order;
use crate::model::swept_state;
use crate::types::BatchV;
use crate::types::ChunkV;
use crate::types::StateV;
use crate::hash::sha256_of;
use vstd::prelude::*;

verus! {

/// Chunks already in ascending order commit unchanged: the stored encoding
/// holds exactly their contents in the given order, and its digest is the
/// SHA-256 of those contents laid end to end.
pub proof fn lemma_ordered_chunks_commit_identity(cs: Seq<ChunkV>, now: u64)
    requires
        ordered(cs),
    ensures
        sort_by_order(cs) == cs,
        encoding_of(contents_of(sort_by_order(cs)), now).content_chunks == contents_of(cs),
        encoding_of(contents_of(sort_by_order(cs)), now).sha256 == sha256_of(
            concat_bytes(contents_of(cs)),
        ),
{
    lemma_sort_of_ordered(cs);
}

/// The digest and the total length of a committed encoding are functions of
/// the content alone: committing the same chunk contents at any two times
/// stores the same digest and the same total length.
pub proof fn lemma_same_content_same_digest(cs: Seq<Seq<u8>>, now1: u64, now2: u64)
    ensures
        encoding_of(cs, now1).sha256 == encoding_of(cs, now2).sha256,
        encoding_of(cs, now1).total_length == encoding_of(cs, now2).total_length,
{
}

/// After a successful commit, the asset published at the batch's path
/// carries the given headers, and under the batch's encoding label exactly
/// the sorted chunk contents with their digest; the batch itself is gone.
pub proof fn lemma_committed_asset_published(
    st: StateV,
    batch_id: u128,
    b: BatchV,
    ids: Seq<u128>,
    headers: Seq<(Seq<char>, Seq<char>)>,
    sorted: Seq<ChunkV>,
    now: u64,
)
    ensures
        ({
            let stf = committed_state(st, batch_id, b, ids, headers, sorted, now);
            &&& slookup(stf.assets, b.key.full_path) is Some
            &&& {
                let a = slookup(stf.assets, b.key.full_path)->Some_0;
                &&& a.headers == headers
                &&& a.key == b.key
                &&& slookup(a.encodings, encoding_label(b.encoding_type)) == Option::Some(
                    encoding_of(contents_of(sorted), now),
                )
            }
            &&& plookup(stf.batches, batch_id) is None
        }),
{
    let stf = committed_state(st, batch_id, b, ids, headers, sorted, now);
    let enc = encoding_of(contents_of(sorted), now);
    let label = encoding_label(b.encoding_type);
    let merged = crate::model::merged_asset(
        slookup(st.assets, b.key.full_path),
        b.key,
        headers,
        label,
        enc,
        now,
    );
    lemma_slookup_supsert(st.assets, b.key.full_path, merged, b.key.full_path);
    match slookup(st.assets, b.key.full_path) {
        Option::None => {
            lemma_slookup_supsert(Seq::empty(), label, enc, label);
        },
        Option::Some(prev) => {
            lemma_slookup_supsert(prev.encodings, label, enc, label);
        },
    }
    crate::model::lemma_plookup_premove(st.batches, batch_id, batch_id);
}

/// An expired batch is purged by a sweep: after any operation that sweeps
/// (a batch creation, or a commit that found the batch expired), the batch
/// no longer answers lookups.
pub proof fn lemma_expired_batch_purged(st: StateV, id: u128, now: u64)
    requires
        punique(st.batches),
        plookup(st.batches, id) matches Option::Some(b) && now > b.expires_at,
    ensures
        plookup(swept_state(st, now).batches, id) is None,
{
    lemma_sweep_batches_lookup(st.batches, now, id);
}

} // verus!
