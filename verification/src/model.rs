//! Mathematical model of the store: association lists keyed by id or by path,
//! expiry sweeps, the stable chunk ordering, and the shape of a committed
//! encoding.

use crate::hash::sha256_of;
use crate::types::AssetEncodingV;
use crate::types::AssetKeyV;
use crate::types::AssetV;
use crate::types::BatchV;
use crate::types::ChunkV;
use crate::types::CommitBatchError;
use crate::types::StateV;
use vstd::prelude::*;

verus! {

// ---------------------------------------------------------------------------
// Association lists keyed by an integer id.
// ---------------------------------------------------------------------------
/// First value stored under key `k`, if any.
pub open spec fn plookup<V>(m: Seq<(u128, V)>, k: u128) -> Option<V>
    decreases m.len(),
{
    if m.len() == 0 {
        Option::None
    } else if m[0].0 == k {
        Option::Some(m[0].1)
    } else {
        plookup(m.skip(1), k)
    }
}

/// Replace the entry under `k` in place, or append one.
pub open spec fn pupsert<V>(m: Seq<(u128, V)>, k: u128, v: V) -> Seq<(u128, V)>
    decreases m.len(),
{
    if m.len() == 0 {
        seq![(k, v)]
    } else if m[0].0 == k {
        seq![(k, v)] + m.skip(1)
    } else {
        seq![m[0]] + pupsert(m.skip(1), k, v)
    }
}

/// Drop every entry under `k`.
pub open spec fn premove<V>(m: Seq<(u128, V)>, k: u128) -> Seq<(u128, V)>
    decreases m.len(),
{
    if m.len() == 0 {
        m
    } else if m[0].0 == k {
        premove(m.skip(1), k)
    } else {
        seq![m[0]] + premove(m.skip(1), k)
    }
}

/// Drop every entry under each of `ks`, in order.
pub open spec fn premove_all<V>(m: Seq<(u128, V)>, ks: Seq<u128>) -> Seq<(u128, V)>
    decreases ks.len(),
{
    if ks.len() == 0 {
        m
    } else {
        premove(premove_all(m, ks.drop_last()), ks.last())
    }
}

/// Pairwise-distinct keys.
pub open spec fn punique<V>(m: Seq<(u128, V)>) -> bool {
    forall|i: int, j: int| 0 <= i < j < m.len() ==> (#[trigger] m[i]).0 != (#[trigger] m[j]).0
}

// ---------------------------------------------------------------------------
// Association lists keyed by a character sequence.
// ---------------------------------------------------------------------------
pub open spec fn slookup<V>(m: Seq<(Seq<char>, V)>, k: Seq<char>) -> Option<V>
    decreases m.len(),
{
    if m.len() == 0 {
        Option::None
    } else if m[0].0 == k {
        Option::Some(m[0].1)
    } else {
        slookup(m.skip(1), k)
    }
}

pub open spec fn supsert<V>(m: Seq<(Seq<char>, V)>, k: Seq<char>, v: V) -> Seq<(Seq<char>, V)>
    decreases m.len(),
{
    if m.len() == 0 {
        seq![(k, v)]
    } else if m[0].0 == k {
        seq![(k, v)] + m.skip(1)
    } else {
        seq![m[0]] + supsert(m.skip(1), k, v)
    }
}

pub open spec fn sunique<V>(m: Seq<(Seq<char>, V)>) -> bool {
    forall|i: int, j: int| 0 <= i < j < m.len() ==> (#[trigger] m[i]).0 != (#[trigger] m[j]).0
}

// ---------------------------------------------------------------------------
// Expiry sweeps.
// ---------------------------------------------------------------------------
/// Batches whose expiry has not passed at `now`.
pub open spec fn sweep_batches(m: Seq<(u128, BatchV)>, now: u64) -> Seq<(u128, BatchV)>
    decreases m.len(),
{
    if m.len() == 0 {
        m
    } else if now > m[0].1.expires_at {
        sweep_batches(m.skip(1), now)
    } else {
        seq![m[0]] + sweep_batches(m.skip(1), now)
    }
}

/// Chunks whose batch still exists.
pub open spec fn sweep_chunks(m: Seq<(u128, ChunkV)>, batches: Seq<(u128, BatchV)>) -> Seq<
    (u128, ChunkV),
>
    decreases m.len(),
{
    if m.len() == 0 {
        m
    } else if plookup(batches, m[0].1.batch_id) is None {
        sweep_chunks(m.skip(1), batches)
    } else {
        seq![m[0]] + sweep_chunks(m.skip(1), batches)
    }
}

/// The state after an expiry sweep: expired batches gone, then chunks whose
/// batch is gone removed.
pub open spec fn swept_state(st: StateV, now: u64) -> StateV {
    let batches = sweep_batches(st.batches, now);
    StateV { batches, chunks: sweep_chunks(st.chunks, batches), ..st }
}

// ---------------------------------------------------------------------------
// Supported encodings.
// ---------------------------------------------------------------------------
/// The encoding labels the store accepts.
pub open spec fn is_supported_encoding(s: Seq<char>) -> bool {
    ||| s == "identity"@
    ||| s == "gzip"@
    ||| s == "compress"@
    ||| s == "deflate"@
    ||| s == "br"@
}

/// The label a batch commits under: the requested one, or the uncompressed
/// default when none was requested.
pub open spec fn encoding_label(requested: Option<Seq<char>>) -> Seq<char> {
    match requested {
        Option::None => "identity"@,
        Option::Some(t) => t,
    }
}

// ---------------------------------------------------------------------------
// Chunk ordering: stable insertion by ascending order id.
// ---------------------------------------------------------------------------
/// Insert `c` after every element whose order id is not greater.
pub open spec fn sorted_insert(s: Seq<ChunkV>, c: ChunkV) -> Seq<ChunkV>
    decreases s.len(),
{
    if s.len() == 0 {
        seq![c]
    } else if s.last().order_id <= c.order_id {
        s.push(c)
    } else {
        sorted_insert(s.drop_last(), c).push(s.last())
    }
}

/// Stable sort by ascending order id: equal order ids keep their relative
/// position in `s`.
pub open spec fn sort_by_order(s: Seq<ChunkV>) -> Seq<ChunkV>
    decreases s.len(),
{
    if s.len() == 0 {
        s
    } else {
        sorted_insert(sort_by_order(s.drop_last()), s.last())
    }
}

pub open spec fn ordered(s: Seq<ChunkV>) -> bool {
    forall|i: int, j: int| 0 <= i < j < s.len() ==> s[i].order_id <= s[j].order_id
}

// ---------------------------------------------------------------------------
// Content assembly.
// ---------------------------------------------------------------------------
pub open spec fn contents_of(s: Seq<ChunkV>) -> Seq<Seq<u8>> {
    s.map_values(|c: ChunkV| c.content)
}

/// The chunks laid end to end.
pub open spec fn concat_bytes(cs: Seq<Seq<u8>>) -> Seq<u8>
    decreases cs.len(),
{
    if cs.len() == 0 {
        Seq::empty()
    } else {
        concat_bytes(cs.drop_last()) + cs.last()
    }
}

pub open spec fn total_size(cs: Seq<Seq<u8>>) -> int
    decreases cs.len(),
{
    if cs.len() == 0 {
        0
    } else {
        total_size(cs.drop_last()) + cs.last().len()
    }
}

/// The encoding record a commit stores for content `cs` at time `now`.
pub open spec fn encoding_of(cs: Seq<Seq<u8>>, now: u64) -> AssetEncodingV {
    AssetEncodingV {
        modified: now,
        content_chunks: cs,
        total_length: total_size(cs) as u128,
        sha256: sha256_of(concat_bytes(cs)),
    }
}

// ---------------------------------------------------------------------------
// Chunk resolution and the committed state.
// ---------------------------------------------------------------------------
/// Resolve each listed chunk id against the chunk store; the first failure
/// wins.
pub open spec fn resolve_chunks(
    chunks: Seq<(u128, ChunkV)>,
    ids: Seq<u128>,
    batch_id: u128,
) -> Result<Seq<ChunkV>, CommitBatchError>
    decreases ids.len(),
{
    if ids.len() == 0 {
        Result::Ok(Seq::empty())
    } else {
        match resolve_chunks(chunks, ids.drop_last(), batch_id) {
            Result::Err(e) => Result::Err(e),
            Result::Ok(pre) => match plookup(chunks, ids.last()) {
                Option::None => Result::Err(CommitBatchError::ChunkNotFound),
                Option::Some(c) => if c.batch_id != batch_id {
                    Result::Err(CommitBatchError::ChunkOutsideBatch)
                } else {
                    Result::Ok(pre.push(c))
                },
            },
        }
    }
}

/// The asset a successful commit stores: a fresh asset keeps `now` as its
/// creation time; an existing one keeps its creation time and its other
/// encoding labels, and has its headers fully replaced.
pub open spec fn merged_asset(
    prev: Option<AssetV>,
    key: AssetKeyV,
    headers: Seq<(Seq<char>, Seq<char>)>,
    label: Seq<char>,
    enc: AssetEncodingV,
    now: u64,
) -> AssetV {
    match prev {
        Option::None => AssetV {
            key,
            headers,
            encodings: supsert(Seq::empty(), label, enc),
            created_at: now,
            updated_at: now,
        },
        Option::Some(a) => AssetV {
            key,
            headers,
            encodings: supsert(a.encodings, label, enc),
            created_at: a.created_at,
            updated_at: now,
        },
    }
}

/// The whole store after a successful commit of `batch_id`.
pub open spec fn committed_state(
    st: StateV,
    batch_id: u128,
    b: BatchV,
    ids: Seq<u128>,
    headers: Seq<(Seq<char>, Seq<char>)>,
    sorted: Seq<ChunkV>,
    now: u64,
) -> StateV {
    let enc = encoding_of(contents_of(sorted), now);
    let asset = merged_asset(
        slookup(st.assets, b.key.full_path),
        b.key,
        headers,
        encoding_label(b.encoding_type),
        enc,
        now,
    );
    StateV {
        batches: premove(st.batches, batch_id),
        chunks: premove_all(st.chunks, ids),
        assets: supsert(st.assets, b.key.full_path, asset),
        ..st
    }
}

// ---------------------------------------------------------------------------
// Lemmas: lookups against a scanned prefix.
// ---------------------------------------------------------------------------
pub proof fn lemma_plookup_skip<V>(m: Seq<(u128, V)>, k: u128, i: int)
    requires
        0 <= i <= m.len(),
        forall|j: int| 0 <= j < i ==> (#[trigger] m[j]).0 != k,
    ensures
        plookup(m, k) == plookup(m.skip(i), k),
    decreases i,
{
    if i > 0 {
        lemma_plookup_skip(m.skip(1), k, i - 1);
        assert(m.skip(1).skip(i - 1) =~= m.skip(i));
    } else {
        assert(m.skip(0) =~= m);
    }
}

pub proof fn lemma_slookup_skip<V>(m: Seq<(Seq<char>, V)>, k: Seq<char>, i: int)
    requires
        0 <= i <= m.len(),
        forall|j: int| 0 <= j < i ==> (#[trigger] m[j]).0 != k,
    ensures
        slookup(m, k) == slookup(m.skip(i), k),
    decreases i,
{
    if i > 0 {
        lemma_slookup_skip(m.skip(1), k, i - 1);
        assert(m.skip(1).skip(i - 1) =~= m.skip(i));
    } else {
        assert(m.skip(0) =~= m);
    }
}

pub proof fn lemma_pupsert_found<V>(m: Seq<(u128, V)>, k: u128, v: V, i: int)
    requires
        0 <= i < m.len(),
        m[i].0 == k,
        forall|j: int| 0 <= j < i ==> (#[trigger] m[j]).0 != k,
    ensures
        pupsert(m, k, v) =~= m.update(i, (k, v)),
    decreases i,
{
    if i == 0 {
        assert(pupsert(m, k, v) =~= seq![(k, v)] + m.skip(1));
        assert(seq![(k, v)] + m.skip(1) =~= m.update(0, (k, v)));
    } else {
        lemma_pupsert_found(m.skip(1), k, v, i - 1);
        assert(pupsert(m, k, v) =~= seq![m[0]] + pupsert(m.skip(1), k, v));
        assert(seq![m[0]] + m.skip(1).update(i - 1, (k, v)) =~= m.update(i, (k, v)));
    }
}

pub proof fn lemma_pupsert_missing<V>(m: Seq<(u128, V)>, k: u128, v: V)
    requires
        forall|j: int| 0 <= j < m.len() ==> (#[trigger] m[j]).0 != k,
    ensures
        pupsert(m, k, v) =~= m.push((k, v)),
    decreases m.len(),
{
    if m.len() > 0 {
        lemma_pupsert_missing(m.skip(1), k, v);
        assert(seq![m[0]] + m.skip(1).push((k, v)) =~= m.push((k, v)));
    }
}

pub proof fn lemma_supsert_found<V>(m: Seq<(Seq<char>, V)>, k: Seq<char>, v: V, i: int)
    requires
        0 <= i < m.len(),
        m[i].0 == k,
        forall|j: int| 0 <= j < i ==> (#[trigger] m[j]).0 != k,
    ensures
        supsert(m, k, v) =~= m.update(i, (k, v)),
    decreases i,
{
    if i == 0 {
        assert(supsert(m, k, v) =~= seq![(k, v)] + m.skip(1));
        assert(seq![(k, v)] + m.skip(1) =~= m.update(0, (k, v)));
    } else {
        lemma_supsert_found(m.skip(1), k, v, i - 1);
        assert(supsert(m, k, v) =~= seq![m[0]] + supsert(m.skip(1), k, v));
        assert(seq![m[0]] + m.skip(1).update(i - 1, (k, v)) =~= m.update(i, (k, v)));
    }
}

pub proof fn lemma_supsert_missing<V>(m: Seq<(Seq<char>, V)>, k: Seq<char>, v: V)
    requires
        forall|j: int| 0 <= j < m.len() ==> (#[trigger] m[j]).0 != k,
    ensures
        supsert(m, k, v) =~= m.push((k, v)),
    decreases m.len(),
{
    if m.len() > 0 {
        lemma_supsert_missing(m.skip(1), k, v);
        assert(seq![m[0]] + m.skip(1).push((k, v)) =~= m.push((k, v)));
    }
}

// ---------------------------------------------------------------------------
// Lemmas: every entry of a derived list comes from the source (or is the
// inserted pair), so entry-wise invariants carry over.
// ---------------------------------------------------------------------------
pub proof fn lemma_pupsert_entries<V>(
    m: Seq<(u128, V)>,
    k: u128,
    v: V,
    p: spec_fn((u128, V)) -> bool,
)
    requires
        forall|i: int| 0 <= i < m.len() ==> p(#[trigger] m[i]),
        p((k, v)),
    ensures
        forall|i: int| 0 <= i < pupsert(m, k, v).len() ==> p(#[trigger] pupsert(m, k, v)[i]),
    decreases m.len(),
{
    let r = pupsert(m, k, v);
    if m.len() == 0 {
        assert(r =~= seq![(k, v)]);
    } else if m[0].0 == k {
        assert forall|i: int| 0 <= i < r.len() implies p(#[trigger] r[i]) by {
            if i > 0 {
                assert(r[i] == m.skip(1)[i - 1]);
                assert(m.skip(1)[i - 1] == m[i]);
            }
        }
    } else {
        assert(forall|i: int| 0 <= i < m.skip(1).len() ==> p(#[trigger] m.skip(1)[i]));
        lemma_pupsert_entries(m.skip(1), k, v, p);
        assert forall|i: int| 0 <= i < r.len() implies p(#[trigger] r[i]) by {
            if i == 0 {
                assert(r[0] == m[0]);
            } else {
                assert(r[i] == pupsert(m.skip(1), k, v)[i - 1]);
            }
        }
    }
}

pub proof fn lemma_supsert_entries<V>(
    m: Seq<(Seq<char>, V)>,
    k: Seq<char>,
    v: V,
    p: spec_fn((Seq<char>, V)) -> bool,
)
    requires
        forall|i: int| 0 <= i < m.len() ==> p(#[trigger] m[i]),
        p((k, v)),
    ensures
        forall|i: int| 0 <= i < supsert(m, k, v).len() ==> p(#[trigger] supsert(m, k, v)[i]),
    decreases m.len(),
{
    let r = supsert(m, k, v);
    if m.len() == 0 {
        assert(r =~= seq![(k, v)]);
    } else if m[0].0 == k {
        assert forall|i: int| 0 <= i < r.len() implies p(#[trigger] r[i]) by {
            if i > 0 {
                assert(r[i] == m.skip(1)[i - 1]);
                assert(m.skip(1)[i - 1] == m[i]);
            }
        }
    } else {
        assert(forall|i: int| 0 <= i < m.skip(1).len() ==> p(#[trigger] m.skip(1)[i]));
        lemma_supsert_entries(m.skip(1), k, v, p);
        assert forall|i: int| 0 <= i < r.len() implies p(#[trigger] r[i]) by {
            if i == 0 {
                assert(r[0] == m[0]);
            } else {
                assert(r[i] == supsert(m.skip(1), k, v)[i - 1]);
            }
        }
    }
}

pub proof fn lemma_premove_entries<V>(m: Seq<(u128, V)>, k: u128, p: spec_fn((u128, V)) -> bool)
    requires
        forall|i: int| 0 <= i < m.len() ==> p(#[trigger] m[i]),
    ensures
        forall|i: int| 0 <= i < premove(m, k).len() ==> p(#[trigger] premove(m, k)[i]),
    decreases m.len(),
{
    let r = premove(m, k);
    if m.len() > 0 {
        assert(forall|i: int| 0 <= i < m.skip(1).len() ==> p(#[trigger] m.skip(1)[i]));
        lemma_premove_entries(m.skip(1), k, p);
        if m[0].0 == k {
            assert(premove(m, k) == premove(m.skip(1), k));
        }
        if m[0].0 != k {
            assert forall|i: int| 0 <= i < r.len() implies p(#[trigger] r[i]) by {
                if i == 0 {
                    assert(r[0] == m[0]);
                } else {
                    assert(r[i] == premove(m.skip(1), k)[i - 1]);
                }
            }
        }
    }
}

pub proof fn lemma_premove_all_entries<V>(
    m: Seq<(u128, V)>,
    ks: Seq<u128>,
    p: spec_fn((u128, V)) -> bool,
)
    requires
        forall|i: int| 0 <= i < m.len() ==> p(#[trigger] m[i]),
    ensures
        forall|i: int|
            0 <= i < premove_all(m, ks).len() ==> p(#[trigger] premove_all(m, ks)[i]),
    decreases ks.len(),
{
    if ks.len() > 0 {
        lemma_premove_all_entries(m, ks.drop_last(), p);
        lemma_premove_entries(premove_all(m, ks.drop_last()), ks.last(), p);
    }
}

pub proof fn lemma_sweep_batches_entries(
    m: Seq<(u128, BatchV)>,
    now: u64,
    p: spec_fn((u128, BatchV)) -> bool,
)
    requires
        forall|i: int| 0 <= i < m.len() ==> p(#[trigger] m[i]),
    ensures
        forall|i: int|
            0 <= i < sweep_batches(m, now).len() ==> p(#[trigger] sweep_batches(m, now)[i]),
    decreases m.len(),
{
    let r = sweep_batches(m, now);
    if m.len() > 0 {
        assert(forall|i: int| 0 <= i < m.skip(1).len() ==> p(#[trigger] m.skip(1)[i]));
        lemma_sweep_batches_entries(m.skip(1), now, p);
        if now > m[0].1.expires_at {
            assert(sweep_batches(m, now) == sweep_batches(m.skip(1), now));
        }
        if !(now > m[0].1.expires_at) {
            assert forall|i: int| 0 <= i < r.len() implies p(#[trigger] r[i]) by {
                if i == 0 {
                    assert(r[0] == m[0]);
                } else {
                    assert(r[i] == sweep_batches(m.skip(1), now)[i - 1]);
                }
            }
        }
    }
}

pub proof fn lemma_sweep_chunks_entries(
    m: Seq<(u128, ChunkV)>,
    batches: Seq<(u128, BatchV)>,
    p: spec_fn((u128, ChunkV)) -> bool,
)
    requires
        forall|i: int| 0 <= i < m.len() ==> p(#[trigger] m[i]),
    ensures
        forall|i: int|
            0 <= i < sweep_chunks(m, batches).len() ==> p(
                #[trigger] sweep_chunks(m, batches)[i],
            ),
    decreases m.len(),
{
    let r = sweep_chunks(m, batches);
    if m.len() > 0 {
        assert(forall|i: int| 0 <= i < m.skip(1).len() ==> p(#[trigger] m.skip(1)[i]));
        lemma_sweep_chunks_entries(m.skip(1), batches, p);
        if plookup(batches, m[0].1.batch_id) is None {
            assert(sweep_chunks(m, batches) == sweep_chunks(m.skip(1), batches));
        }
        if !(plookup(batches, m[0].1.batch_id) is None) {
            assert forall|i: int| 0 <= i < r.len() implies p(#[trigger] r[i]) by {
                if i == 0 {
                    assert(r[0] == m[0]);
                } else {
                    assert(r[i] == sweep_chunks(m.skip(1), batches)[i - 1]);
                }
            }
        }
    }
}

// ---------------------------------------------------------------------------
// Lemmas: lookups after updates and removals.
// ---------------------------------------------------------------------------
pub proof fn lemma_plookup_pupsert<V>(m: Seq<(u128, V)>, k: u128, v: V, k2: u128)
    ensures
        plookup(pupsert(m, k, v), k2) == if k2 == k {
            Option::Some(v)
        } else {
            plookup(m, k2)
        },
    decreases m.len(),
{
    let r = pupsert(m, k, v);
    if m.len() > 0 && m[0].0 != k {
        lemma_plookup_pupsert(m.skip(1), k, v, k2);
        assert(r == seq![m[0]] + pupsert(m.skip(1), k, v));
        assert(r[0] == m[0]);
        assert(r.skip(1) =~= pupsert(m.skip(1), k, v));
        if m[0].0 != k2 {
            assert(plookup(r, k2) == plookup(r.skip(1), k2));
            assert(plookup(m, k2) == plookup(m.skip(1), k2));
        }
    } else if m.len() > 0 {
        assert(r == seq![(k, v)] + m.skip(1));
        assert(r[0] == (k, v));
        assert(r.skip(1) =~= m.skip(1));
        if k2 != k {
            assert(plookup(r, k2) == plookup(r.skip(1), k2));
            assert(plookup(m, k2) == plookup(m.skip(1), k2));
        }
    } else {
        assert(r == seq![(k, v)]);
        assert(r[0] == (k, v));
        assert(r.skip(1) =~= Seq::<(u128, V)>::empty());
        if k2 != k {
            assert(plookup(r, k2) == plookup(r.skip(1), k2));
            assert(plookup(r.skip(1), k2) is None);
        }
    }
}

pub proof fn lemma_slookup_supsert<V>(m: Seq<(Seq<char>, V)>, k: Seq<char>, v: V, k2: Seq<char>)
    ensures
        slookup(supsert(m, k, v), k2) == if k2 == k {
            Option::Some(v)
        } else {
            slookup(m, k2)
        },
    decreases m.len(),
{
    let r = supsert(m, k, v);
    if m.len() > 0 && m[0].0 != k {
        lemma_slookup_supsert(m.skip(1), k, v, k2);
        assert(r == seq![m[0]] + supsert(m.skip(1), k, v));
        assert(r[0] == m[0]);
        assert(r.skip(1) =~= supsert(m.skip(1), k, v));
        if m[0].0 != k2 {
            assert(slookup(r, k2) == slookup(r.skip(1), k2));
            assert(slookup(m, k2) == slookup(m.skip(1), k2));
        }
    } else if m.len() > 0 {
        assert(r == seq![(k, v)] + m.skip(1));
        assert(r[0] == (k, v));
        assert(r.skip(1) =~= m.skip(1));
        if k2 != k {
            assert(slookup(r, k2) == slookup(r.skip(1), k2));
            assert(slookup(m, k2) == slookup(m.skip(1), k2));
        }
    } else {
        assert(r == seq![(k, v)]);
        assert(r[0] == (k, v));
        assert(r.skip(1) =~= Seq::<(Seq<char>, V)>::empty());
        if k2 != k {
            assert(slookup(r, k2) == slookup(r.skip(1), k2));
            assert(slookup(r.skip(1), k2) is None);
        }
    }
}

pub proof fn lemma_plookup_premove<V>(m: Seq<(u128, V)>, k: u128, k2: u128)
    ensures
        plookup(premove(m, k), k2) == if k2 == k {
            Option::None::<V>
        } else {
            plookup(m, k2)
        },
    decreases m.len(),
{
    let r = premove(m, k);
    if m.len() > 0 {
        lemma_plookup_premove(m.skip(1), k, k2);
        if m[0].0 != k {
            assert(r == seq![m[0]] + premove(m.skip(1), k));
            assert(r[0] == m[0]);
            assert(r.skip(1) =~= premove(m.skip(1), k));
            if m[0].0 != k2 {
                assert(plookup(r, k2) == plookup(r.skip(1), k2));
                assert(plookup(m, k2) == plookup(m.skip(1), k2));
            }
        } else {
            assert(r == premove(m.skip(1), k));
            if m[0].0 != k2 {
                assert(plookup(m, k2) == plookup(m.skip(1), k2));
            }
        }
    }
}

/// A batch that is expired at `now` is gone after the sweep, provided keys
/// are unique.
pub proof fn lemma_sweep_batches_lookup(m: Seq<(u128, BatchV)>, now: u64, k: u128)
    requires
        punique(m),
    ensures
        plookup(sweep_batches(m, now), k) == match plookup(m, k) {
            Option::Some(b) => if now > b.expires_at {
                Option::None
            } else {
                Option::Some(b)
            },
            Option::None => Option::None,
        },
    decreases m.len(),
{
    if m.len() > 0 {
        assert(forall|i: int, j: int|
            0 <= i < j < m.skip(1).len() ==> (#[trigger] m.skip(1)[i]).0 != (
            #[trigger] m.skip(1)[j]).0);
        lemma_sweep_batches_lookup(m.skip(1), now, k);
        if !(now > m[0].1.expires_at) {
            assert((seq![m[0]] + sweep_batches(m.skip(1), now)).skip(1) =~= sweep_batches(
                m.skip(1),
                now,
            ));
        } else if m[0].0 == k {
            // every other entry has a different key, so the lookup fails
            assert(forall|i: int| 0 <= i < m.skip(1).len() ==> (#[trigger] m.skip(1)[i]).0 != k);
            lemma_plookup_none(m.skip(1), k);
            lemma_sweep_entries_none(m.skip(1), now, k);
        }
    }
}

pub proof fn lemma_plookup_none<V>(m: Seq<(u128, V)>, k: u128)
    requires
        forall|i: int| 0 <= i < m.len() ==> (#[trigger] m[i]).0 != k,
    ensures
        plookup(m, k) is None,
    decreases m.len(),
{
    if m.len() > 0 {
        assert(forall|i: int| 0 <= i < m.skip(1).len() ==> (#[trigger] m.skip(1)[i]).0 != k);
        lemma_plookup_none(m.skip(1), k);
    }
}

proof fn lemma_sweep_entries_none(m: Seq<(u128, BatchV)>, now: u64, k: u128)
    requires
        forall|i: int| 0 <= i < m.len() ==> (#[trigger] m[i]).0 != k,
    ensures
        plookup(sweep_batches(m, now), k) is None,
{
    let p = |e: (u128, BatchV)| e.0 != k;
    assert(forall|i: int| 0 <= i < m.len() ==> p(#[trigger] m[i]));
    lemma_sweep_batches_entries(m, now, p);
    lemma_plookup_none(sweep_batches(m, now), k);
}

// ---------------------------------------------------------------------------
// Lemmas: uniqueness is preserved.
// ---------------------------------------------------------------------------
pub proof fn lemma_pupsert_unique<V>(m: Seq<(u128, V)>, k: u128, v: V)
    requires
        punique(m),
    ensures
        punique(pupsert(m, k, v)),
{
    if exists|i: int| 0 <= i < m.len() && (#[trigger] m[i]).0 == k {
        let i = choose|i: int|
            0 <= i < m.len() && (#[trigger] m[i]).0 == k && forall|j: int|
                0 <= j < i ==> (#[trigger] m[j]).0 != k;
        lemma_first_key_index(m, k);
        lemma_pupsert_found(m, k, v, i);
    } else {
        assert(forall|j: int| 0 <= j < m.len() ==> (#[trigger] m[j]).0 != k);
        lemma_pupsert_missing(m, k, v);
    }
}

/// If some entry carries key `k`, there is a first one.
#[verifier::rlimit(50)]
pub proof fn lemma_first_key_index<V>(m: Seq<(u128, V)>, k: u128)
    requires
        exists|i: int| 0 <= i < m.len() && (#[trigger] m[i]).0 == k,
    ensures
        exists|i: int|
            0 <= i < m.len() && (#[trigger] m[i]).0 == k && forall|j: int|
                0 <= j < i ==> (#[trigger] m[j]).0 != k,
    decreases m.len(),
{
    if m.len() > 0 {
        if m[0].0 == k {
            assert(0 <= 0 < m.len() && m[0].0 == k && forall|j: int|
                0 <= j < 0 ==> (#[trigger] m[j]).0 != k);
        } else {
            assert(exists|i: int| 0 <= i < m.skip(1).len() && (#[trigger] m.skip(1)[i]).0 == k) by {
                let w = choose|i: int| 0 <= i < m.len() && (#[trigger] m[i]).0 == k;
                assert(m.skip(1)[w - 1].0 == k);
            }
            lemma_first_key_index(m.skip(1), k);
            let i = choose|i: int|
                0 <= i < m.skip(1).len() && (#[trigger] m.skip(1)[i]).0 == k && forall|j: int|
                    0 <= j < i ==> (#[trigger] m.skip(1)[j]).0 != k;
            assert(m[i + 1].0 == k);
            assert(forall|j: int| 0 <= j < i + 1 ==> (#[trigger] m[j]).0 != k) by {
                assert(forall|j: int| 1 <= j < i + 1 ==> m[j] == m.skip(1)[j - 1]);
            }
        }
    }
}

pub proof fn lemma_supsert_unique<V>(m: Seq<(Seq<char>, V)>, k: Seq<char>, v: V)
    requires
        sunique(m),
    ensures
        sunique(supsert(m, k, v)),
    decreases m.len(),
{
    if m.len() > 0 && m[0].0 != k {
        assert(forall|i: int, j: int|
            0 <= i < j < m.skip(1).len() ==> (#[trigger] m.skip(1)[i]).0 != (
            #[trigger] m.skip(1)[j]).0);
        lemma_supsert_unique(m.skip(1), k, v);
        let rest = supsert(m.skip(1), k, v);
        let p = |e: (Seq<char>, V)| e.0 == m[0].0 ==> false;
        // keys of the upserted tail are keys of the tail, or k; none equals m[0].0
        assert(forall|i: int| 0 <= i < m.skip(1).len() ==> (#[trigger] m.skip(1)[i]).0 != m[0].0);
        lemma_supsert_keys(m.skip(1), k, v);
        assert(forall|i: int|
            0 <= i < rest.len() ==> (#[trigger] rest[i]).0 != m[0].0);
        assert(forall|i: int, j: int|
            0 <= i < j < (seq![m[0]] + rest).len() ==> ((seq![m[0]] + rest)[i]).0 != ((
            seq![m[0]] + rest)[j]).0) by {
            assert(forall|i: int| 1 <= i < (seq![m[0]] + rest).len() ==> (seq![m[0]] + rest)[i]
                == rest[i - 1]);
        }
    } else if m.len() > 0 {
        assert(forall|i: int|
            1 <= i < (seq![(k, v)] + m.skip(1)).len() ==> (seq![(k, v)] + m.skip(1))[i] == m.skip(
                1,
            )[i - 1]);
    }
}

/// Every key of `supsert(m, k, v)` is a key of `m` or is `k`.
pub proof fn lemma_supsert_keys<V>(m: Seq<(Seq<char>, V)>, k: Seq<char>, v: V)
    ensures
        forall|i: int|
            0 <= i < supsert(m, k, v).len() ==> ((#[trigger] supsert(m, k, v)[i]).0 == k
                || exists|j: int|
                0 <= j < m.len() && (#[trigger] m[j]).0 == supsert(m, k, v)[i].0),
    decreases m.len(),
{
    if m.len() > 0 && m[0].0 != k {
        lemma_supsert_keys(m.skip(1), k, v);
        let r = supsert(m, k, v);
        assert forall|i: int| 0 <= i < r.len() implies (r[i].0 == k || exists|j: int|
            0 <= j < m.len() && (#[trigger] m[j]).0 == r[i].0) by {
            if i == 0 {
                assert(m[0].0 == r[0].0);
            } else {
                assert(r[i] == supsert(m.skip(1), k, v)[i - 1]);
                if supsert(m.skip(1), k, v)[i - 1].0 != k {
                    let j = choose|j: int|
                        0 <= j < m.skip(1).len() && (#[trigger] m.skip(1)[j]).0 == supsert(
                            m.skip(1),
                            k,
                            v,
                        )[i - 1].0;
                    assert(m[j + 1].0 == r[i].0);
                }
            }
        }
    }
}

pub proof fn lemma_premove_unique<V>(m: Seq<(u128, V)>, k: u128)
    requires
        punique(m),
    ensures
        punique(premove(m, k)),
    decreases m.len(),
{
    if m.len() > 0 {
        assert(forall|i: int, j: int|
            0 <= i < j < m.skip(1).len() ==> (#[trigger] m.skip(1)[i]).0 != (
            #[trigger] m.skip(1)[j]).0);
        lemma_premove_unique(m.skip(1), k);
        if m[0].0 != k {
            let rest = premove(m.skip(1), k);
            assert(forall|i: int| 0 <= i < m.skip(1).len() ==> (#[trigger] m.skip(1)[i]).0
                != m[0].0);
            let p = |e: (u128, V)| e.0 != m[0].0;
            assert(forall|i: int| 0 <= i < m.skip(1).len() ==> p(#[trigger] m.skip(1)[i]));
            lemma_premove_entries(m.skip(1), k, p);
            assert(forall|i: int, j: int|
                0 <= i < j < (seq![m[0]] + rest).len() ==> ((seq![m[0]] + rest)[i]).0 != ((
                seq![m[0]] + rest)[j]).0) by {
                assert(forall|i: int| 1 <= i < (seq![m[0]] + rest).len() ==> (seq![m[0]] + rest)[i]
                    == rest[i - 1]);
            }
        }
    }
}

pub proof fn lemma_premove_all_unique<V>(m: Seq<(u128, V)>, ks: Seq<u128>)
    requires
        punique(m),
    ensures
        punique(premove_all(m, ks)),
    decreases ks.len(),
{
    if ks.len() > 0 {
        lemma_premove_all_unique(m, ks.drop_last());
        lemma_premove_unique(premove_all(m, ks.drop_last()), ks.last());
    }
}

pub proof fn lemma_sweep_batches_unique(m: Seq<(u128, BatchV)>, now: u64)
    requires
        punique(m),
    ensures
        punique(sweep_batches(m, now)),
    decreases m.len(),
{
    if m.len() > 0 {
        assert(forall|i: int, j: int|
            0 <= i < j < m.skip(1).len() ==> (#[trigger] m.skip(1)[i]).0 != (
            #[trigger] m.skip(1)[j]).0);
        lemma_sweep_batches_unique(m.skip(1), now);
        if !(now > m[0].1.expires_at) {
            let rest = sweep_batches(m.skip(1), now);
            let p = |e: (u128, BatchV)| e.0 != m[0].0;
            assert(forall|i: int| 0 <= i < m.skip(1).len() ==> p(#[trigger] m.skip(1)[i]));
            lemma_sweep_batches_entries(m.skip(1), now, p);
            assert(forall|i: int, j: int|
                0 <= i < j < (seq![m[0]] + rest).len() ==> ((seq![m[0]] + rest)[i]).0 != ((
                seq![m[0]] + rest)[j]).0) by {
                assert(forall|i: int| 1 <= i < (seq![m[0]] + rest).len() ==> (seq![m[0]] + rest)[i]
                    == rest[i - 1]);
            }
        }
    }
}

pub proof fn lemma_sweep_chunks_unique(m: Seq<(u128, ChunkV)>, batches: Seq<(u128, BatchV)>)
    requires
        punique(m),
    ensures
        punique(sweep_chunks(m, batches)),
    decreases m.len(),
{
    if m.len() > 0 {
        assert(forall|i: int, j: int|
            0 <= i < j < m.skip(1).len() ==> (#[trigger] m.skip(1)[i]).0 != (
            #[trigger] m.skip(1)[j]).0);
        lemma_sweep_chunks_unique(m.skip(1), batches);
        if plookup(batches, m[0].1.batch_id) is Some {
            let rest = sweep_chunks(m.skip(1), batches);
            let p = |e: (u128, ChunkV)| e.0 != m[0].0;
            assert(forall|i: int| 0 <= i < m.skip(1).len() ==> p(#[trigger] m.skip(1)[i]));
            lemma_sweep_chunks_entries(m.skip(1), batches, p);
            assert(forall|i: int, j: int|
                0 <= i < j < (seq![m[0]] + rest).len() ==> ((seq![m[0]] + rest)[i]).0 != ((
                seq![m[0]] + rest)[j]).0) by {
                assert(forall|i: int| 1 <= i < (seq![m[0]] + rest).len() ==> (seq![m[0]] + rest)[i]
                    == rest[i - 1]);
            }
        }
    }
}


// ---------------------------------------------------------------------------
// Lemmas: filters distribute over concatenation (loop-invariant steps).
// ---------------------------------------------------------------------------
pub proof fn lemma_sweep_batches_concat(a: Seq<(u128, BatchV)>, b: Seq<(u128, BatchV)>, now: u64)
    ensures
        sweep_batches(a + b, now) == sweep_batches(a, now) + sweep_batches(b, now),
    decreases a.len(),
{
    if a.len() == 0 {
        assert(a + b =~= b);
        assert(sweep_batches(a, now) + sweep_batches(b, now) =~= sweep_batches(b, now));
    } else {
        lemma_sweep_batches_concat(a.skip(1), b, now);
        assert((a + b).skip(1) =~= a.skip(1) + b);
        assert((a + b)[0] == a[0]);
        if now > a[0].1.expires_at {
            assert(sweep_batches(a + b, now) == sweep_batches(a.skip(1) + b, now));
            assert(sweep_batches(a, now) == sweep_batches(a.skip(1), now));
        } else {
            assert(sweep_batches(a + b, now) == seq![a[0]] + sweep_batches(a.skip(1) + b, now));
            assert(sweep_batches(a, now) == seq![a[0]] + sweep_batches(a.skip(1), now));
            assert(seq![a[0]] + (sweep_batches(a.skip(1), now) + sweep_batches(b, now)) =~= (
            seq![a[0]] + sweep_batches(a.skip(1), now)) + sweep_batches(b, now));
        }
    }
}

pub proof fn lemma_sweep_batches_one(e: (u128, BatchV), now: u64)
    ensures
        sweep_batches(seq![e], now) == if now > e.1.expires_at {
            Seq::<(u128, BatchV)>::empty()
        } else {
            seq![e]
        },
{
    assert(seq![e].skip(1) =~= Seq::<(u128, BatchV)>::empty());
    assert(sweep_batches(seq![e].skip(1), now) == Seq::<(u128, BatchV)>::empty());
    if !(now > e.1.expires_at) {
        assert(sweep_batches(seq![e], now) =~= seq![e]);
    }
}

pub proof fn lemma_sweep_chunks_concat(
    a: Seq<(u128, ChunkV)>,
    b: Seq<(u128, ChunkV)>,
    batches: Seq<(u128, BatchV)>,
)
    ensures
        sweep_chunks(a + b, batches) == sweep_chunks(a, batches) + sweep_chunks(b, batches),
    decreases a.len(),
{
    if a.len() == 0 {
        assert(a + b =~= b);
        assert(sweep_chunks(a, batches) + sweep_chunks(b, batches) =~= sweep_chunks(b, batches));
    } else {
        lemma_sweep_chunks_concat(a.skip(1), b, batches);
        assert((a + b).skip(1) =~= a.skip(1) + b);
        assert((a + b)[0] == a[0]);
        if plookup(batches, a[0].1.batch_id) is None {
            assert(sweep_chunks(a + b, batches) == sweep_chunks(a.skip(1) + b, batches));
            assert(sweep_chunks(a, batches) == sweep_chunks(a.skip(1), batches));
        } else {
            assert(sweep_chunks(a + b, batches) == seq![a[0]] + sweep_chunks(
                a.skip(1) + b,
                batches,
            ));
            assert(sweep_chunks(a, batches) == seq![a[0]] + sweep_chunks(a.skip(1), batches));
            assert(seq![a[0]] + (sweep_chunks(a.skip(1), batches) + sweep_chunks(b, batches)) =~= (
            seq![a[0]] + sweep_chunks(a.skip(1), batches)) + sweep_chunks(b, batches));
        }
    }
}

pub proof fn lemma_sweep_chunks_one(e: (u128, ChunkV), batches: Seq<(u128, BatchV)>)
    ensures
        sweep_chunks(seq![e], batches) == if plookup(batches, e.1.batch_id) is None {
            Seq::<(u128, ChunkV)>::empty()
        } else {
            seq![e]
        },
{
    assert(seq![e].skip(1) =~= Seq::<(u128, ChunkV)>::empty());
    assert(sweep_chunks(seq![e].skip(1), batches) == Seq::<(u128, ChunkV)>::empty());
    if !(plookup(batches, e.1.batch_id) is None) {
        assert(sweep_chunks(seq![e], batches) =~= seq![e]);
    }
}

pub proof fn lemma_premove_concat<V>(a: Seq<(u128, V)>, b: Seq<(u128, V)>, k: u128)
    ensures
        premove(a + b, k) == premove(a, k) + premove(b, k),
    decreases a.len(),
{
    if a.len() == 0 {
        assert(a + b =~= b);
        assert(premove(a, k) + premove(b, k) =~= premove(b, k));
    } else {
        lemma_premove_concat(a.skip(1), b, k);
        assert((a + b).skip(1) =~= a.skip(1) + b);
        assert((a + b)[0] == a[0]);
        if a[0].0 == k {
            assert(premove(a + b, k) == premove(a.skip(1) + b, k));
            assert(premove(a, k) == premove(a.skip(1), k));
        } else {
            assert(premove(a + b, k) == seq![a[0]] + premove(a.skip(1) + b, k));
            assert(premove(a, k) == seq![a[0]] + premove(a.skip(1), k));
            assert(seq![a[0]] + (premove(a.skip(1), k) + premove(b, k)) =~= (seq![a[0]] + premove(
                a.skip(1),
                k,
            )) + premove(b, k));
        }
    }
}

pub proof fn lemma_premove_one<V>(e: (u128, V), k: u128)
    ensures
        premove(seq![e], k) == if e.0 == k {
            Seq::<(u128, V)>::empty()
        } else {
            seq![e]
        },
{
    assert(seq![e].skip(1) =~= Seq::<(u128, V)>::empty());
    assert(premove(seq![e].skip(1), k) == Seq::<(u128, V)>::empty());
    if e.0 != k {
        assert(premove(seq![e], k) =~= seq![e]);
    }
}


// ---------------------------------------------------------------------------
// Lemmas: a lookup hit is an entry of the list.
// ---------------------------------------------------------------------------
pub proof fn lemma_plookup_is_entry<V>(m: Seq<(u128, V)>, k: u128)
    requires
        plookup(m, k) is Some,
    ensures
        exists|i: int|
            0 <= i < m.len() && #[trigger] m[i] == (k, plookup(m, k)->Some_0),
    decreases m.len(),
{
    if m.len() > 0 {
        if m[0].0 == k {
            assert(m[0] == (k, plookup(m, k)->Some_0));
        } else {
            lemma_plookup_is_entry(m.skip(1), k);
            let i = choose|i: int|
                0 <= i < m.skip(1).len() && #[trigger] m.skip(1)[i] == (
                    k,
                    plookup(m.skip(1), k)->Some_0,
                );
            assert(m[i + 1] == (k, plookup(m, k)->Some_0));
        }
    }
}

pub proof fn lemma_slookup_is_entry<V>(m: Seq<(Seq<char>, V)>, k: Seq<char>)
    requires
        slookup(m, k) is Some,
    ensures
        exists|i: int|
            0 <= i < m.len() && #[trigger] m[i] == (k, slookup(m, k)->Some_0),
    decreases m.len(),
{
    if m.len() > 0 {
        if m[0].0 == k {
            assert(m[0] == (k, slookup(m, k)->Some_0));
        } else {
            lemma_slookup_is_entry(m.skip(1), k);
            let i = choose|i: int|
                0 <= i < m.skip(1).len() && #[trigger] m.skip(1)[i] == (
                    k,
                    slookup(m.skip(1), k)->Some_0,
                );
            assert(m[i + 1] == (k, slookup(m, k)->Some_0));
        }
    }
}

// ---------------------------------------------------------------------------
// Lemmas: the stable sort.
// ---------------------------------------------------------------------------
/// Every element of `sorted_insert(s, c)` is an element of `s`, or is `c`.
pub proof fn lemma_sorted_insert_entries(s: Seq<ChunkV>, c: ChunkV, p: spec_fn(ChunkV) -> bool)
    requires
        forall|i: int| 0 <= i < s.len() ==> p(#[trigger] s[i]),
        p(c),
    ensures
        forall|i: int|
            0 <= i < sorted_insert(s, c).len() ==> p(#[trigger] sorted_insert(s, c)[i]),
    decreases s.len(),
{
    let r = sorted_insert(s, c);
    if s.len() == 0 {
        assert(r =~= seq![c]);
    } else if s.last().order_id <= c.order_id {
        assert(r == s.push(c));
        assert forall|i: int| 0 <= i < r.len() implies p(#[trigger] r[i]) by {
            if i < s.len() {
                assert(r[i] == s[i]);
            } else {
                assert(r[i] == c);
            }
        }
    } else {
        assert(forall|i: int| 0 <= i < s.drop_last().len() ==> p(#[trigger] s.drop_last()[i]));
        lemma_sorted_insert_entries(s.drop_last(), c, p);
        let inner = sorted_insert(s.drop_last(), c);
        assert(r == inner.push(s.last()));
        assert forall|i: int| 0 <= i < r.len() implies p(#[trigger] r[i]) by {
            if i < inner.len() {
                assert(r[i] == inner[i]);
            } else {
                assert(r[i] == s.last());
            }
        }
    }
}

pub proof fn lemma_sorted_insert_ordered(s: Seq<ChunkV>, c: ChunkV)
    requires
        ordered(s),
    ensures
        ordered(sorted_insert(s, c)),
    decreases s.len(),
{
    let r = sorted_insert(s, c);
    if s.len() == 0 {
        assert(r =~= seq![c]);
    } else if s.last().order_id <= c.order_id {
        assert(r == s.push(c));
        assert forall|i: int, j: int| 0 <= i < j < r.len() implies r[i].order_id
            <= r[j].order_id by {
            if j < s.len() {
            } else {
                assert(r[j] == c);
                if i < s.len() - 1 {
                    assert(s[i].order_id <= s.last().order_id);
                }
            }
        }
    } else {
        assert(forall|i: int, j: int|
            0 <= i < j < s.drop_last().len() ==> s.drop_last()[i].order_id
                <= s.drop_last()[j].order_id);
        lemma_sorted_insert_ordered(s.drop_last(), c);
        let inner = sorted_insert(s.drop_last(), c);
        let p = |e: ChunkV| e.order_id <= s.last().order_id;
        assert forall|i: int| 0 <= i < s.drop_last().len() implies p(
            #[trigger] s.drop_last()[i],
        ) by {
            assert(s.drop_last()[i] == s[i]);
        }
        assert(p(c));
        lemma_sorted_insert_entries(s.drop_last(), c, p);
        assert(r == inner.push(s.last()));
        assert forall|i: int, j: int| 0 <= i < j < r.len() implies r[i].order_id
            <= r[j].order_id by {
            if j < inner.len() {
                assert(r[i] == inner[i] && r[j] == inner[j]);
            } else {
                assert(r[j] == s.last());
                assert(r[i] == inner[i]);
                assert(p(inner[i]));
            }
        }
    }
}

pub proof fn lemma_sort_ordered(s: Seq<ChunkV>)
    ensures
        ordered(sort_by_order(s)),
    decreases s.len(),
{
    if s.len() > 0 {
        lemma_sort_ordered(s.drop_last());
        lemma_sorted_insert_ordered(sort_by_order(s.drop_last()), s.last());
    }
}

/// Where the stable insert lands: before the first strictly greater order id.
pub proof fn lemma_sorted_insert_at(s: Seq<ChunkV>, c: ChunkV, j: int)
    requires
        ordered(s),
        0 <= j <= s.len(),
        forall|k: int| j <= k < s.len() ==> s[k].order_id > c.order_id,
        j > 0 ==> s[j - 1].order_id <= c.order_id,
    ensures
        sorted_insert(s, c) == s.take(j) + seq![c] + s.skip(j),
    decreases s.len(),
{
    if j == s.len() {
        if s.len() == 0 {
            assert(sorted_insert(s, c) =~= s.take(j) + seq![c] + s.skip(j));
        } else {
            assert(s.last().order_id <= c.order_id);
            assert(s.push(c) =~= s.take(j) + seq![c] + s.skip(j));
        }
    } else {
        assert(s.last().order_id > c.order_id);
        assert(forall|i: int, k: int|
            0 <= i < k < s.drop_last().len() ==> s.drop_last()[i].order_id
                <= s.drop_last()[k].order_id);
        assert forall|k: int| j <= k < s.drop_last().len() implies s.drop_last()[k].order_id
            > c.order_id by {
            assert(s.drop_last()[k] == s[k]);
        }
        if j > 0 {
            assert(s.drop_last()[j - 1] == s[j - 1]);
        }
        lemma_sorted_insert_at(s.drop_last(), c, j);
        assert(sorted_insert(s, c) == sorted_insert(s.drop_last(), c).push(s.last()));
        assert((s.drop_last().take(j) + seq![c] + s.drop_last().skip(j)).push(s.last()) =~= s.take(
            j,
        ) + seq![c] + s.skip(j));
    }
}

/// A list already in ascending order is its own sort.
pub proof fn lemma_sort_of_ordered(s: Seq<ChunkV>)
    requires
        ordered(s),
    ensures
        sort_by_order(s) == s,
    decreases s.len(),
{
    if s.len() > 0 {
        assert(forall|i: int, j: int|
            0 <= i < j < s.drop_last().len() ==> s.drop_last()[i].order_id
                <= s.drop_last()[j].order_id);
        lemma_sort_of_ordered(s.drop_last());
        if s.len() == 1 {
            assert(sorted_insert(s.drop_last(), s.last()) =~= seq![s.last()]);
            assert(seq![s.last()] =~= s);
        } else {
            assert(s.drop_last().last().order_id <= s.last().order_id);
            assert(s.drop_last().push(s.last()) =~= s);
        }
    }
}

// ---------------------------------------------------------------------------
// Lemmas: chunk resolution against a scanned prefix.
// ---------------------------------------------------------------------------
/// Once a prefix of the id list fails to resolve, the whole list fails the
/// same way.
pub proof fn lemma_resolve_prefix_err(
    chunks: Seq<(u128, ChunkV)>,
    ids: Seq<u128>,
    i: int,
    batch_id: u128,
)
    requires
        0 <= i < ids.len(),
        resolve_chunks(chunks, ids.take(i + 1), batch_id) is Err,
    ensures
        resolve_chunks(chunks, ids, batch_id) == resolve_chunks(chunks, ids.take(i + 1), batch_id),
    decreases ids.len(),
{
    if i + 1 == ids.len() {
        assert(ids.take(i + 1) =~= ids);
    } else {
        assert(ids.drop_last().take(i + 1) =~= ids.take(i + 1));
        lemma_resolve_prefix_err(chunks, ids.drop_last(), i, batch_id);
    }
}

} // verus!
