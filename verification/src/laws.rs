//! The library's stated laws, each proved over the same spec functions the
//! executable functions are pinned to.

use crate::index::entry_leq;
use crate::model::FileV;
use crate::pipeline::{gather, spec_entries, spec_reindex, spec_reindex_model, STAMPED_CRS};
use crate::Error;
use crate::index::IndexEntry;
use vstd::prelude::*;

verus! {

/// Rearranging the entry sequence rearranges the gathered features the
/// same way: equal entry multisets give equal feature multisets.
pub proof fn lemma_gather_multiset(fs: Seq<Seq<u8>>, e1: Seq<IndexEntry>, e2: Seq<IndexEntry>)
    requires
        e1.to_multiset() == e2.to_multiset(),
    ensures
        gather(fs, e1).to_multiset() == gather(fs, e2).to_multiset(),
    decreases e1.len(),
{
    broadcast use vstd::seq_lib::group_to_multiset_ensures;
    broadcast use vstd::multiset::group_multiset_axioms;

    e1.to_multiset_ensures();
    e2.to_multiset_ensures();
    if e1.len() == 0 {
        assert(e2.len() == 0);
        assert(gather(fs, e1) =~= Seq::<Seq<u8>>::empty());
        assert(gather(fs, e2) =~= Seq::<Seq<u8>>::empty());
    } else {
        let x = e1[0];
        assert(e1.contains(x));
        assert(e1.to_multiset().count(x) > 0);
        assert(e2.to_multiset().count(x) > 0);
        assert(e2.contains(x));
        let k = choose|k: int| 0 <= k < e2.len() && e2[k] == x;
        assert(e1.remove(0).to_multiset() == e1.to_multiset().remove(x));
        assert(e2.remove(k).to_multiset() == e2.to_multiset().remove(x));
        lemma_gather_multiset(fs, e1.remove(0), e2.remove(k));
        assert(gather(fs, e1.remove(0)) =~= gather(fs, e1).remove(0));
        assert(gather(fs, e2.remove(k)) =~= gather(fs, e2).remove(k));
        let fx = fs[x.ordinal as int];
        assert(gather(fs, e1)[0] == fx);
        assert(gather(fs, e2)[k] == fx);
        assert(gather(fs, e1).remove(0).to_multiset() == gather(fs, e1).to_multiset().remove(fx));
        assert(gather(fs, e2).remove(k).to_multiset() == gather(fs, e2).to_multiset().remove(fx));
        assert(gather(fs, e1).contains(fx));
        assert(gather(fs, e2).contains(fx));
        assert(gather(fs, e1).to_multiset().count(fx) > 0);
        assert(gather(fs, e2).to_multiset().count(fx) > 0);
        assert forall|v: Seq<u8>| true implies gather(fs, e1).to_multiset().count(v) == gather(
            fs,
            e2,
        ).to_multiset().count(v) by {
            assert(gather(fs, e1).to_multiset().remove(fx).count(v) == gather(
                fs,
                e2,
            ).to_multiset().remove(fx).count(v));
        }
        assert(gather(fs, e1).to_multiset() =~= gather(fs, e2).to_multiset());
    }
}

/// Gathering by the identity entry order gives the features back.
pub proof fn lemma_gather_identity(fs: Seq<Seq<u8>>)
    requires
        fs.len() <= 0xFFFF_FFFF_FFFF_FFFF,
    ensures
        gather(fs, spec_entries(fs)) =~= fs,
{
    assert forall|i: int| 0 <= i < fs.len() implies gather(fs, spec_entries(fs))[i] == fs[i] by {
        assert(spec_entries(fs)[i].ordinal == i as u64);
        assert((i as u64) as int == i);
    }
}

/// Round-trip preservation: the rewrite keeps exactly the multiset of
/// feature payloads, and the output header's count is the real feature
/// count of the input.
pub proof fn lemma_round_trip_preservation(
    m: FileV,
    n: u16,
    name: Seq<u8>,
    description: Option<Seq<u8>>,
)
    requires
        m.features.len() <= 0xFFFF_FFFF_FFFF_FFFF,
        spec_reindex_model(m, n, name, description) is Ok,
    ensures
        ({
            let out = spec_reindex_model(m, n, name, description)->Ok_0;
            &&& out.features.to_multiset() == m.features.to_multiset()
            &&& out.features.len() == m.features.len()
            &&& out.header.feature_count == m.features.len() as u64
        }),
{
    broadcast use vstd::seq_lib::group_to_multiset_ensures;

    let out = spec_reindex_model(m, n, name, description)->Ok_0;
    if m.features.len() == 0 {
        assert(out.features =~= Seq::<Seq<u8>>::empty());
        assert(m.features =~= Seq::<Seq<u8>>::empty());
    } else {
        let entries = spec_entries(m.features);
        let sorted = entries.sort_by(entry_leq());
        crate::index::lemma_entry_le_total();
        entries.lemma_sort_by_ensures(entry_leq());
        lemma_gather_multiset(m.features, sorted, entries);
        lemma_gather_identity(m.features);
        out.features.to_multiset_ensures();
        m.features.to_multiset_ensures();
        assert(out.features.len() == m.features.len());
    }
}

/// Determinism: the rewrite is a function of its input bytes and
/// parameters alone — equal inputs give byte-identical outputs.
pub proof fn lemma_reindex_deterministic(
    b1: Seq<u8>,
    b2: Seq<u8>,
    n: u16,
    name: Seq<u8>,
    description: Option<Seq<u8>>,
)
    requires
        b1 == b2,
    ensures
        spec_reindex(b1, n, name, description) == spec_reindex(b2, n, name, description),
{
}

/// CRS stamping: whatever CRS code the input declares, every successful
/// rewrite declares the fixed stamped code.
pub proof fn lemma_crs_stamped(m: FileV, n: u16, name: Seq<u8>, description: Option<Seq<u8>>)
    requires
        spec_reindex_model(m, n, name, description) is Ok,
    ensures
        spec_reindex_model(m, n, name, description)->Ok_0.header.crs_code == STAMPED_CRS,
{
}

/// Idempotence under re-indexing: rewriting a rewrite's output again (with
/// the same parameters) succeeds and keeps the same feature multiset as
/// the original input; its index is rebuilt by the same laws.
pub proof fn lemma_reindex_idempotent(
    m: FileV,
    n: u16,
    name: Seq<u8>,
    description: Option<Seq<u8>>,
)
    requires
        m.features.len() <= 0xFFFF_FFFF_FFFF_FFFF,
        spec_reindex_model(m, n, name, description) is Ok,
    ensures
        ({
            let o1 = spec_reindex_model(m, n, name, description)->Ok_0;
            &&& spec_reindex_model(o1, n, name, description) is Ok
            &&& spec_reindex_model(o1, n, name, description)->Ok_0.features.to_multiset()
                == m.features.to_multiset()
        }),
{
    broadcast use vstd::seq_lib::group_to_multiset_ensures;

    let o1 = spec_reindex_model(m, n, name, description)->Ok_0;
    lemma_round_trip_preservation(m, n, name, description);
    assert(o1.features.len() == m.features.len());
    lemma_round_trip_preservation(o1, n, name, description);
}

} // verus!
