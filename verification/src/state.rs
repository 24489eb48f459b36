//! The published-asset store, keyed by full path.

use crate::model::lemma_slookup_skip;
use crate::model::lemma_supsert_found;
use crate::model::lemma_supsert_missing;
use crate::model::slookup;
use crate::model::supsert;
use crate::types::Asset;
use crate::types::AssetV;
use crate::types::State;
use vstd::pervasive::VecAdditionalExecFns;
use vstd::prelude::*;

verus! {

pub open spec fn assets_view(v: Seq<(String, Asset)>) -> Seq<(Seq<char>, AssetV)> {
    v.map_values(|p: (String, Asset)| (p.0@, p.1@))
}

/// The asset published at `full_path`, if any, with no access gate applied.
pub fn get_public_asset(state: &State, full_path: &String) -> (r: Option<Asset>)
    ensures
        match r {
            Option::Some(a) => slookup(state@.assets, full_path@) == Option::Some(a@),
            Option::None => slookup(state@.assets, full_path@) is None,
        },
{
    get_asset_stable(full_path, &state.assets)
}

/// The asset published at `full_path`, if any.
pub fn get_asset(state: &State, full_path: &String) -> (r: Option<Asset>)
    ensures
        match r {
            Option::Some(a) => slookup(state@.assets, full_path@) == Option::Some(a@),
            Option::None => slookup(state@.assets, full_path@) is None,
        },
{
    get_asset_stable(full_path, &state.assets)
}

/// Publish `asset` at `full_path`, replacing any asset already there.
pub fn insert_asset(state: &mut State, full_path: &String, asset: &Asset)
    ensures
        final(state)@.assets == supsert(old(state)@.assets, full_path@, asset@),
        final(state)@.batches == old(state)@.batches,
        final(state)@.chunks == old(state)@.chunks,
        final(state)@.next_batch_id == old(state)@.next_batch_id,
        final(state)@.next_chunk_id == old(state)@.next_chunk_id,
{
    insert_asset_stable(full_path, asset, &mut state.assets);
}

fn get_asset_stable(full_path: &String, assets: &Vec<(String, Asset)>) -> (r: Option<Asset>)
    ensures
        match r {
            Option::Some(a) => slookup(assets_view(assets@), full_path@) == Option::Some(a@),
            Option::None => slookup(assets_view(assets@), full_path@) is None,
        },
{
    let ghost m = assets_view(assets@);
    let mut i: usize = 0;
    while i < assets.len()
        invariant
            0 <= i <= assets.len(),
            m == assets_view(assets@),
            forall|j: int| 0 <= j < i ==> (#[trigger] m[j]).0 != full_path@,
        decreases assets.len() - i,
    {
        if crate::text::string_eq(&assets[i].0, full_path) {
            proof {
                lemma_slookup_skip(m, full_path@, i as int);
                assert(m.skip(i as int)[0] == m[i as int]);
            }
            return Option::Some(assets[i].1.clone());
        }
        i += 1;
    }
    proof {
        lemma_slookup_skip(m, full_path@, m.len() as int);
        assert(slookup(m.skip(m.len() as int), full_path@) is None);
    }
    Option::None
}

fn insert_asset_stable(full_path: &String, asset: &Asset, assets: &mut Vec<(String, Asset)>)
    ensures
        assets_view(final(assets)@) == supsert(assets_view(old(assets)@), full_path@, asset@),
{
    let ghost m = assets_view(assets@);
    let mut i: usize = 0;
    while i < assets.len()
        invariant
            0 <= i <= assets.len(),
            m == assets_view(assets@),
            m == assets_view(old(assets)@),
            forall|j: int| 0 <= j < i ==> (#[trigger] m[j]).0 != full_path@,
        decreases assets.len() - i,
    {
        if crate::text::string_eq(&assets[i].0, full_path) {
            proof {
                lemma_supsert_found(m, full_path@, asset@, i as int);
            }
            assets.set(i, (full_path.clone(), asset.clone()));
            assert(assets_view(assets@) =~= m.update(i as int, (full_path@, asset@)));
            return ;
        }
        i += 1;
    }
    proof {
        lemma_supsert_missing(m, full_path@, asset@);
    }
    assets.push((full_path.clone(), asset.clone()));
    assert(assets_view(assets@) =~= m.push((full_path@, asset@)));
}

} // verus!
