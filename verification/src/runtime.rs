//! In-flight upload state: the batch and chunk stores.

use crate::model::lemma_plookup_skip;
use crate::model::lemma_premove_concat;
use crate::model::lemma_premove_one;
use crate::model::lemma_pupsert_found;
use crate::model::lemma_pupsert_missing;
use crate::model::lemma_sweep_batches_concat;
use crate::model::lemma_sweep_batches_one;
use crate::model::lemma_sweep_chunks_concat;
use crate::model::lemma_sweep_chunks_one;
use crate::model::plookup;
use crate::model::premove;
use crate::model::premove_all;
use crate::model::pupsert;
use crate::model::sweep_batches;
use crate::model::sweep_chunks;
use crate::types::Batch;
use crate::types::BatchV;
use crate::types::Chunk;
use crate::types::ChunkV;
use crate::types::State;
use vstd::pervasive::VecAdditionalExecFns;
use vstd::prelude::*;

verus! {

pub open spec fn batches_view(v: Seq<(u128, Batch)>) -> Seq<(u128, BatchV)> {
    v.map_values(|p: (u128, Batch)| (p.0, p.1@))
}

pub open spec fn chunks_view(v: Seq<(u128, Chunk)>) -> Seq<(u128, ChunkV)> {
    v.map_values(|p: (u128, Chunk)| (p.0, p.1@))
}

/// The batch stored under `batch_id`, if any.
pub fn get_batch(state: &State, batch_id: u128) -> (r: Option<Batch>)
    ensures
        match r {
            Option::Some(b) => plookup(state@.batches, batch_id) == Option::Some(b@),
            Option::None => plookup(state@.batches, batch_id) is None,
        },
{
    let ghost m = state@.batches;
    let mut i: usize = 0;
    while i < state.batches.len()
        invariant
            0 <= i <= state.batches.len(),
            m == batches_view(state.batches@),
            forall|j: int| 0 <= j < i ==> (#[trigger] m[j]).0 != batch_id,
        decreases state.batches.len() - i,
    {
        if state.batches[i].0 == batch_id {
            proof {
                lemma_plookup_skip(m, batch_id, i as int);
                assert(m.skip(i as int)[0] == m[i as int]);
            }
            return Option::Some(state.batches[i].1.clone());
        }
        i += 1;
    }
    proof {
        lemma_plookup_skip(m, batch_id, m.len() as int);
        assert(plookup(m.skip(m.len() as int), batch_id) is None);
    }
    Option::None
}

/// Store `batch` under `batch_id`, replacing any batch already there.
pub fn insert_batch(state: &mut State, batch_id: u128, batch: Batch)
    ensures
        final(state)@.batches == pupsert(old(state)@.batches, batch_id, batch@),
        final(state)@.chunks == old(state)@.chunks,
        final(state)@.assets == old(state)@.assets,
        final(state)@.next_batch_id == old(state)@.next_batch_id,
        final(state)@.next_chunk_id == old(state)@.next_chunk_id,
{
    insert_batch_impl(batch_id, batch, &mut state.batches);
}

fn insert_batch_impl(batch_id: u128, batch: Batch, batches: &mut Vec<(u128, Batch)>)
    ensures
        batches_view(final(batches)@) == pupsert(batches_view(old(batches)@), batch_id, batch@),
{
    let ghost m = batches_view(batches@);
    let mut i: usize = 0;
    while i < batches.len()
        invariant
            0 <= i <= batches.len(),
            m == batches_view(batches@),
            m == batches_view(old(batches)@),
            forall|j: int| 0 <= j < i ==> (#[trigger] m[j]).0 != batch_id,
        decreases batches.len() - i,
    {
        if batches[i].0 == batch_id {
            proof {
                lemma_pupsert_found(m, batch_id, batch@, i as int);
            }
            batches.set(i, (batch_id, batch));
            assert(batches_view(batches@) =~= m.update(i as int, (batch_id, batch@)));
            return ;
        }
        i += 1;
    }
    proof {
        lemma_pupsert_missing(m, batch_id, batch@);
    }
    batches.push((batch_id, batch));
    assert(batches_view(batches@) =~= m.push((batch_id, batch@)));
}

/// Drop every batch whose expiry lies before `now`.
pub fn clear_expired_batches(state: &mut State, now: u64)
    ensures
        final(state)@.batches == sweep_batches(old(state)@.batches, now),
        final(state)@.chunks == old(state)@.chunks,
        final(state)@.assets == old(state)@.assets,
        final(state)@.next_batch_id == old(state)@.next_batch_id,
        final(state)@.next_chunk_id == old(state)@.next_chunk_id,
{
    let ghost m = state@.batches;
    let mut kept: Vec<(u128, Batch)> = Vec::new();
    let mut i: usize = 0;
    while i < state.batches.len()
        invariant
            0 <= i <= state.batches.len(),
            m == batches_view(state.batches@),
            batches_view(kept@) == sweep_batches(m.take(i as int), now),
        decreases state.batches.len() - i,
    {
        let expired = now > state.batches[i].1.expires_at;
        proof {
            assert(m.take(i + 1) =~= m.take(i as int) + seq![m[i as int]]);
            lemma_sweep_batches_concat(m.take(i as int), seq![m[i as int]], now);
            lemma_sweep_batches_one(m[i as int], now);
        }
        if !expired {
            let (id, b) = &state.batches[i];
            kept.push((*id, b.clone()));
            assert(batches_view(kept@) =~= sweep_batches(m.take(i as int), now) + seq![
                m[i as int],
            ]);
        } else {
            assert(sweep_batches(m.take(i + 1), now) =~= sweep_batches(m.take(i as int), now));
        }
        i += 1;
    }
    assert(m.take(m.len() as int) =~= m);
    state.batches = kept;
}

/// Remove the batch and the listed chunks, after a successful commit.
pub fn clear_batch(state: &mut State, batch_id: u128, chunk_ids: &Vec<u128>)
    ensures
        final(state)@.batches == premove(old(state)@.batches, batch_id),
        final(state)@.chunks == premove_all(old(state)@.chunks, chunk_ids@),
        final(state)@.assets == old(state)@.assets,
        final(state)@.next_batch_id == old(state)@.next_batch_id,
        final(state)@.next_chunk_id == old(state)@.next_chunk_id,
{
    let mut i: usize = 0;
    while i < chunk_ids.len()
        invariant
            0 <= i <= chunk_ids.len(),
            state@.chunks == premove_all(old(state)@.chunks, chunk_ids@.take(i as int)),
            state@.batches == old(state)@.batches,
            state@.assets == old(state)@.assets,
            state@.next_batch_id == old(state)@.next_batch_id,
            state@.next_chunk_id == old(state)@.next_chunk_id,
        decreases chunk_ids.len() - i,
    {
        proof {
            assert(chunk_ids@.take(i + 1).drop_last() =~= chunk_ids@.take(i as int));
        }
        remove_chunk(state, chunk_ids[i]);
        i += 1;
    }
    assert(chunk_ids@.take(chunk_ids.len() as int) =~= chunk_ids@);
    remove_batch(state, batch_id);
}

fn remove_batch(state: &mut State, batch_id: u128)
    ensures
        final(state)@.batches == premove(old(state)@.batches, batch_id),
        final(state)@.chunks == old(state)@.chunks,
        final(state)@.assets == old(state)@.assets,
        final(state)@.next_batch_id == old(state)@.next_batch_id,
        final(state)@.next_chunk_id == old(state)@.next_chunk_id,
{
    let ghost m = state@.batches;
    let mut kept: Vec<(u128, Batch)> = Vec::new();
    let mut i: usize = 0;
    while i < state.batches.len()
        invariant
            0 <= i <= state.batches.len(),
            m == batches_view(state.batches@),
            batches_view(kept@) == premove(m.take(i as int), batch_id),
        decreases state.batches.len() - i,
    {
        proof {
            assert(m.take(i + 1) =~= m.take(i as int) + seq![m[i as int]]);
            lemma_premove_concat(m.take(i as int), seq![m[i as int]], batch_id);
            lemma_premove_one(m[i as int], batch_id);
        }
        if state.batches[i].0 != batch_id {
            let (id, b) = &state.batches[i];
            kept.push((*id, b.clone()));
            assert(batches_view(kept@) =~= premove(m.take(i as int), batch_id) + seq![
                m[i as int],
            ]);
        } else {
            assert(premove(m.take(i + 1), batch_id) =~= premove(m.take(i as int), batch_id));
        }
        i += 1;
    }
    assert(m.take(m.len() as int) =~= m);
    state.batches = kept;
}

fn remove_chunk(state: &mut State, chunk_id: u128)
    ensures
        final(state)@.chunks == premove(old(state)@.chunks, chunk_id),
        final(state)@.batches == old(state)@.batches,
        final(state)@.assets == old(state)@.assets,
        final(state)@.next_batch_id == old(state)@.next_batch_id,
        final(state)@.next_chunk_id == old(state)@.next_chunk_id,
{
    let ghost m = state@.chunks;
    let mut kept: Vec<(u128, Chunk)> = Vec::new();
    let mut i: usize = 0;
    while i < state.chunks.len()
        invariant
            0 <= i <= state.chunks.len(),
            m == chunks_view(state.chunks@),
            chunks_view(kept@) == premove(m.take(i as int), chunk_id),
        decreases state.chunks.len() - i,
    {
        proof {
            assert(m.take(i + 1) =~= m.take(i as int) + seq![m[i as int]]);
            lemma_premove_concat(m.take(i as int), seq![m[i as int]], chunk_id);
            lemma_premove_one(m[i as int], chunk_id);
        }
        if state.chunks[i].0 != chunk_id {
            let (id, c) = &state.chunks[i];
            kept.push((*id, c.clone()));
            assert(chunks_view(kept@) =~= premove(m.take(i as int), chunk_id) + seq![m[i as int]]);
        } else {
            assert(premove(m.take(i + 1), chunk_id) =~= premove(m.take(i as int), chunk_id));
        }
        i += 1;
    }
    assert(m.take(m.len() as int) =~= m);
    state.chunks = kept;
}

/// The chunk stored under `chunk_id`, if any.
pub fn get_chunk(state: &State, chunk_id: u128) -> (r: Option<Chunk>)
    ensures
        match r {
            Option::Some(c) => plookup(state@.chunks, chunk_id) == Option::Some(c@),
            Option::None => plookup(state@.chunks, chunk_id) is None,
        },
{
    let ghost m = state@.chunks;
    let mut i: usize = 0;
    while i < state.chunks.len()
        invariant
            0 <= i <= state.chunks.len(),
            m == chunks_view(state.chunks@),
            forall|j: int| 0 <= j < i ==> (#[trigger] m[j]).0 != chunk_id,
        decreases state.chunks.len() - i,
    {
        if state.chunks[i].0 == chunk_id {
            proof {
                lemma_plookup_skip(m, chunk_id, i as int);
                assert(m.skip(i as int)[0] == m[i as int]);
            }
            return Option::Some(state.chunks[i].1.clone());
        }
        i += 1;
    }
    proof {
        lemma_plookup_skip(m, chunk_id, m.len() as int);
        assert(plookup(m.skip(m.len() as int), chunk_id) is None);
    }
    Option::None
}

/// Drop every chunk whose batch no longer exists.
pub fn clear_expired_chunks(state: &mut State)
    ensures
        final(state)@.chunks == sweep_chunks(old(state)@.chunks, old(state)@.batches),
        final(state)@.batches == old(state)@.batches,
        final(state)@.assets == old(state)@.assets,
        final(state)@.next_batch_id == old(state)@.next_batch_id,
        final(state)@.next_chunk_id == old(state)@.next_chunk_id,
{
    let ghost m = state@.chunks;
    let ghost bs = state@.batches;
    let mut kept: Vec<(u128, Chunk)> = Vec::new();
    let mut i: usize = 0;
    while i < state.chunks.len()
        invariant
            0 <= i <= state.chunks.len(),
            m == chunks_view(state.chunks@),
            bs == batches_view(state.batches@),
            chunks_view(kept@) == sweep_chunks(m.take(i as int), bs),
        decreases state.chunks.len() - i,
    {
        let batch = get_batch(state, state.chunks[i].1.batch_id);
        proof {
            assert(m.take(i + 1) =~= m.take(i as int) + seq![m[i as int]]);
            lemma_sweep_chunks_concat(m.take(i as int), seq![m[i as int]], bs);
            lemma_sweep_chunks_one(m[i as int], bs);
        }
        match batch {
            Option::Some(_) => {
                let (id, c) = &state.chunks[i];
                kept.push((*id, c.clone()));
                assert(chunks_view(kept@) =~= sweep_chunks(m.take(i as int), bs) + seq![
                    m[i as int],
                ]);
            },
            Option::None => {
                assert(sweep_chunks(m.take(i + 1), bs) =~= sweep_chunks(m.take(i as int), bs));
            },
        }
        i += 1;
    }
    assert(m.take(m.len() as int) =~= m);
    state.chunks = kept;
}

/// Store `chunk` under `chunk_id`, replacing any chunk already there.
pub fn insert_chunk(state: &mut State, chunk_id: u128, chunk: Chunk)
    ensures
        final(state)@.chunks == pupsert(old(state)@.chunks, chunk_id, chunk@),
        final(state)@.batches == old(state)@.batches,
        final(state)@.assets == old(state)@.assets,
        final(state)@.next_batch_id == old(state)@.next_batch_id,
        final(state)@.next_chunk_id == old(state)@.next_chunk_id,
{
    insert_chunk_impl(chunk_id, chunk, &mut state.chunks);
}

fn insert_chunk_impl(chunk_id: u128, chunk: Chunk, chunks: &mut Vec<(u128, Chunk)>)
    ensures
        chunks_view(final(chunks)@) == pupsert(chunks_view(old(chunks)@), chunk_id, chunk@),
{
    let ghost m = chunks_view(chunks@);
    let mut i: usize = 0;
    while i < chunks.len()
        invariant
            0 <= i <= chunks.len(),
            m == chunks_view(chunks@),
            m == chunks_view(old(chunks)@),
            forall|j: int| 0 <= j < i ==> (#[trigger] m[j]).0 != chunk_id,
        decreases chunks.len() - i,
    {
        if chunks[i].0 == chunk_id {
            proof {
                lemma_pupsert_found(m, chunk_id, chunk@, i as int);
            }
            chunks.set(i, (chunk_id, chunk));
            assert(chunks_view(chunks@) =~= m.update(i as int, (chunk_id, chunk@)));
            return ;
        }
        i += 1;
    }
    proof {
        lemma_pupsert_missing(m, chunk_id, chunk@);
    }
    chunks.push((chunk_id, chunk));
    assert(chunks_view(chunks@) =~= m.push((chunk_id, chunk@)));
}

} // verus!
