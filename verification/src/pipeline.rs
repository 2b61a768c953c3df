//! The rewrite pipeline: read header and features, summarize, build the
//! index, and write header, index block and reordered features.
//!
//! The pipeline is a pure function of its input bytes and parameters:
//! running it twice on the same input yields byte-identical output. The
//! output header always declares the fixed CRS authority code, whatever
//! the input declared; this is a deliberate, observable contract of the
//! rewrite. An input with no features yields the documented policy result:
//! an index-less but valid output with zero features.

use crate::codec::render_file;
use crate::decode::{parse_file, read_file};
use crate::geom::BBox;
use crate::index::{
    build_index, entry_leq, spec_index_nodes, IndexEntry,
};
use crate::key::{sort_key, spec_sort_key};
use crate::model::{FgbFile, FileV, Header, HeaderV, IndexMeta, Feature};
use crate::summary::{spec_summarize, summarize};
use crate::Error;
use vstd::prelude::*;

verus! {

/// The CRS authority code every output declares.
pub const STAMPED_CRS: i32 = 4326;

/// The index entry of feature `i`: its box, its key, its ordinal.
pub open spec fn spec_entries(features: Seq<Seq<u8>>) -> Seq<IndexEntry> {
    Seq::new(
        features.len(),
        |i: int| IndexEntry {
            key: spec_sort_key(spec_summarize(features[i])) as u64,
            ordinal: i as u64,
            bbox: spec_summarize(features[i]),
        },
    )
}

/// Features rearranged into entry order: element `i` is the feature the
/// entry at position `i` refers to.
pub open spec fn gather(features: Seq<Seq<u8>>, entries: Seq<IndexEntry>) -> Seq<Seq<u8>> {
    entries.map_values(|e: IndexEntry| features[e.ordinal as int])
}

/// The output header for a nonempty input.
pub open spec fn indexed_header(
    m: FileV,
    n: u16,
    num_nodes: u64,
    name: Seq<u8>,
    description: Option<Seq<u8>>,
) -> HeaderV {
    HeaderV {
        geometry_type: m.header.geometry_type,
        feature_count: m.features.len() as u64,
        index: Some(IndexMeta { branching: n, num_nodes }),
        crs_code: STAMPED_CRS,
        name,
        description,
        columns: m.header.columns,
    }
}

/// The whole rewrite on the decoded model.
pub open spec fn spec_reindex_model(
    m: FileV,
    n: u16,
    name: Seq<u8>,
    description: Option<Seq<u8>>,
) -> Result<FileV, Error> {
    if n < 2 {
        Err(Error::InvalidBranchingFactor)
    } else if m.features.len() == 0 {
        Ok(
            FileV {
                header: HeaderV {
                    geometry_type: m.header.geometry_type,
                    feature_count: 0,
                    index: None,
                    crs_code: STAMPED_CRS,
                    name,
                    description,
                    columns: m.header.columns,
                },
                nodes: Seq::empty(),
                features: Seq::empty(),
            },
        )
    } else {
        let sorted = spec_entries(m.features).sort_by(entry_leq());
        let nodes = spec_index_nodes(sorted, n as int);
        Ok(
            FileV {
                header: indexed_header(m, n, nodes.len() as u64, name, description),
                nodes,
                features: gather(m.features, sorted),
            },
        )
    }
}

/// The whole rewrite on bytes: decode, rebuild, encode.
pub open spec fn spec_reindex(
    b: Seq<u8>,
    n: u16,
    name: Seq<u8>,
    description: Option<Seq<u8>>,
) -> Result<Seq<u8>, Error> {
    match parse_file(b) {
        Err(e) => Err(e),
        Ok(m) => match spec_reindex_model(m, n, name, description) {
            Err(e) => Err(e),
            Ok(out) => Ok(render_file(out)),
        },
    }
}

/// Computes each feature's entry, in input order.
#[verifier::loop_isolation(false)]
fn make_entries(features: &Vec<Feature>) -> (r: Vec<IndexEntry>)
    requires
        forall|i: int| 0 <= i < features@.len() ==> crate::model::wf_payload(
            (#[trigger] features@[i])@,
        ),
    ensures
        r@ == spec_entries(features@.map_values(|f: Feature| f@)),
{
    let ghost fs = features@.map_values(|f: Feature| f@);
    let mut out: Vec<IndexEntry> = Vec::new();
    let mut i: usize = 0;
    while i < features.len()
        invariant
            i <= features@.len(),
            out@ =~= spec_entries(fs).take(i as int),
        decreases features@.len() - i,
    {
        let bbox = summarize(&features[i]);
        let key = sort_key(&bbox);
        proof {
            crate::key::lemma_interleave_bound(
                crate::key::center_x(bbox),
                crate::key::center_y(bbox),
                32,
            );
            crate::key::lemma_pow4_32();
        }
        let e = IndexEntry { key, ordinal: i as u64, bbox };
        proof {
            assert(fs[i as int] == features@[i as int]@);
            assert(spec_entries(fs)[i as int] == e);
        }
        out.push(e);
        proof {
            assert(out@ =~= spec_entries(fs).take(i + 1));
        }
        i = i + 1;
    }
    proof {
        assert(spec_entries(fs).take(fs.len() as int) =~= spec_entries(fs));
    }
    out
}

/// The rewrite of a decoded file with no features: the documented policy
/// output, index-less but valid, with the CRS stamped.
#[verifier::rlimit(100)]
fn reindex_empty(m: FgbFile, name: Vec<u8>, description: Option<Vec<u8>>, Ghost(descv): Ghost<
    Option<Seq<u8>>,
>, branching: u16) -> (out: Vec<u8>)
    requires
        m@.wf(),
        m@.features.len() == 0,
        branching >= 2,
        name@.len() <= 0xFFFF_FFFF,
        match description {
            Some(d) => d@.len() <= 0xFFFF_FFFF,
            None => true,
        },
        descv == (match description {
            Some(d) => Some(d@),
            None => None::<Seq<u8>>,
        }),
    ensures
        spec_reindex_model(m@, branching, name@, descv) is Ok,
        out@ == render_file(spec_reindex_model(m@, branching, name@, descv)->Ok_0),
{
    let ghost mv = m@;
    let out_file = FgbFile {
        header: Header {
            geometry_type: m.header.geometry_type,
            feature_count: 0,
            index: None,
            crs_code: STAMPED_CRS,
            name,
            description,
            columns: m.header.columns,
        },
        nodes: Vec::new(),
        features: Vec::new(),
    };
    proof {
        assert(out_file@.features =~= Seq::<Seq<u8>>::empty());
        assert(out_file@.nodes =~= Seq::<crate::model::IndexNode>::empty());
        assert(out_file@.wf());
        assert(out_file@.header == spec_reindex_model(mv, branching, name@, descv)->Ok_0.header);
        assert(out_file@ == spec_reindex_model(mv, branching, name@, descv)->Ok_0);
    }
    crate::codec::write_file(&out_file)
}

/// The rewrite of a decoded file with features: sort, build the index,
/// and encode header, index block and reordered features.
#[verifier::rlimit(100)]
fn reindex_nonempty(m: FgbFile, name: Vec<u8>, description: Option<Vec<u8>>, Ghost(descv): Ghost<
    Option<Seq<u8>>,
>, branching: u16) -> (out: Vec<u8>)
    requires
        m@.wf(),
        m@.features.len() > 0,
        branching >= 2,
        name@.len() <= 0xFFFF_FFFF,
        match description {
            Some(d) => d@.len() <= 0xFFFF_FFFF,
            None => true,
        },
        descv == (match description {
            Some(d) => Some(d@),
            None => None::<Seq<u8>>,
        }),
    ensures
        spec_reindex_model(m@, branching, name@, descv) is Ok,
        out@ == render_file(spec_reindex_model(m@, branching, name@, descv)->Ok_0),
{
    let ghost mv = m@;
    proof {
        assert forall|i: int| 0 <= i < m.features@.len() implies crate::model::wf_payload(
            (#[trigger] m.features@[i])@,
        ) by {
            assert(mv.features[i] == m.features@[i]@);
        }
    }
    let entries = make_entries(&m.features);
    let br = build_index(&entries, branching);
    let (sorted, nodes) = match br {
        Ok(v) => v,
        Err(e) => {
            proof {
                assert(false);
            }
            return Vec::new();
        },
    };
    proof {
        lemma_sorted_ordinals(mv.features);
    }
    let out_features = gather_features(&m.features, &sorted);
    let ghost sortedv = sorted@;
    let num_nodes: u64 = nodes.len() as u64;
    let out_file = FgbFile {
        header: Header {
            geometry_type: m.header.geometry_type,
            feature_count: sorted.len() as u64,
            index: Some(IndexMeta { branching, num_nodes }),
            crs_code: STAMPED_CRS,
            name,
            description,
            columns: m.header.columns,
        },
        nodes,
        features: out_features,
    };
    proof {
        assert(out_file@.features =~= gather(mv.features, sortedv));
        assert(sortedv.len() == mv.features.len()) by {
            crate::index::lemma_entry_le_total();
            spec_entries(mv.features).lemma_sort_by_ensures(entry_leq());
            spec_entries(mv.features).to_multiset_ensures();
            sortedv.to_multiset_ensures();
        }
        assert(out_file@.header == indexed_header(mv, branching, num_nodes, name@, descv));
        assert(out_file@ == spec_reindex_model(mv, branching, name@, descv)->Ok_0);
        lemma_gather_wf(mv, sortedv);
        assert(out_file@.wf());
    }
    crate::codec::write_file(&out_file)
}

/// Rewrites one file: reads it, builds the spatial index over all features
/// and returns the re-encoded bytes — header (CRS stamped, index declared),
/// index block, then the features in index order. Fails with exactly the
/// parse error of a malformed input, or `InvalidBranchingFactor` for a
/// node capacity below two; an input with zero features yields a valid
/// index-less output.
pub fn reindex(input: &Vec<u8>, branching: u16, name: Vec<u8>, description: Option<Vec<u8>>) -> (r:
    Result<Vec<u8>, Error>)
    requires
        name@.len() <= 0xFFFF_FFFF,
        match description {
            Some(d) => d@.len() <= 0xFFFF_FFFF,
            None => true,
        },
    ensures
        ({
            let s = spec_reindex(
                input@,
                branching,
                name@,
                match description {
                    Some(d) => Some(d@),
                    None => None,
                },
            );
            match r {
                Ok(out) => s == Ok::<Seq<u8>, Error>(out@),
                Err(e) => s == Err::<Seq<u8>, Error>(e),
            }
        }),
{
    let ghost descv: Option<Seq<u8>> = match description {
        Some(ref d) => Some(d@),
        None => None,
    };
    let fr = read_file(input);
    let m = match fr {
        Ok(v) => v,
        Err(e) => {
            return Err(e);
        },
    };
    proof {
        crate::decode::lemma_parse_file_wf(input@);
    }
    if branching < 2 {
        return Err(Error::InvalidBranchingFactor);
    }
    if m.features.len() == 0 {
        proof {
            assert(m@.features =~= Seq::<Seq<u8>>::empty());
        }
        let out = reindex_empty(m, name, description, Ghost(descv), branching);
        return Ok(out);
    }
    let out = reindex_nonempty(m, name, description, Ghost(descv), branching);
    Ok(out)
}

/// Every entry of the sorted sequence names a real feature ordinal.
pub proof fn lemma_sorted_ordinals(fs: Seq<Seq<u8>>)
    ensures
        forall|k: int|
            0 <= k < spec_entries(fs).sort_by(entry_leq()).len() ==> (
            #[trigger] spec_entries(fs).sort_by(entry_leq())[k]).ordinal < fs.len(),
{
    let sortedv = spec_entries(fs).sort_by(entry_leq());
    crate::index::lemma_entry_le_total();
    spec_entries(fs).lemma_sort_by_ensures(entry_leq());
    assert forall|k: int| 0 <= k < sortedv.len() implies (#[trigger] sortedv[k]).ordinal
        < fs.len() by {
        assert(sortedv.contains(sortedv[k]));
        assert(spec_entries(fs).contains(sortedv[k]));
        let w = choose|w: int|
            0 <= w < spec_entries(fs).len() && spec_entries(fs)[w] == sortedv[k];
        assert(sortedv[k].ordinal == w as u64);
    }
}

/// Copies the features out in the sorted order the index established.
#[verifier::loop_isolation(false)]
fn gather_features(features: &Vec<Feature>, sorted: &Vec<IndexEntry>) -> (r: Vec<Feature>)
    requires
        forall|k: int| 0 <= k < sorted@.len() ==> (#[trigger] sorted@[k]).ordinal
            < features@.len(),
    ensures
        r@.map_values(|f: Feature| f@) == gather(
            features@.map_values(|f: Feature| f@),
            sorted@,
        ),
{
    let ghost fsv = features@.map_values(|f: Feature| f@);
    let flen = features.len();
    let mut out: Vec<Feature> = Vec::new();
    let mut i: usize = 0;
    while i < sorted.len()
        invariant
            i <= sorted@.len(),
            out@.map_values(|f: Feature| f@) =~= gather(fsv, sorted@).take(i as int),
        decreases sorted@.len() - i,
    {
        let ghost fv0 = out@.map_values(|f: Feature| f@);
        let ord = sorted[i].ordinal;
        proof {
            assert(sorted@[i as int].ordinal == ord);
            assert(ord < features@.len());
            assert((ord as usize) as int == ord as int);
        }
        let f = copy_feature(&features[ord as usize]);
        proof {
            assert(fsv[ord as int] == features@[ord as int]@);
            assert(f@ == fsv[ord as int]);
            assert(gather(fsv, sorted@)[i as int] == fsv[ord as int]);
        }
        out.push(f);
        proof {
            assert(out@.map_values(|f: Feature| f@) =~= fv0.push(fsv[ord as int]));
            assert(out@.map_values(|f: Feature| f@) =~= gather(fsv, sorted@).take(i + 1));
        }
        i = i + 1;
    }
    proof {
        assert(gather(fsv, sorted@).take(sorted@.len() as int) =~= gather(fsv, sorted@));
    }
    out
}

fn copy_feature(f: &Feature) -> (r: Feature)
    ensures
        r@ == f@,
{
    Feature { payload: vstd::slice::slice_to_vec(f.payload.as_slice()) }
}

/// Every gathered feature is one of the input's, so the rearranged block
/// keeps every payload structurally valid.
proof fn lemma_gather_wf(m: FileV, sorted: Seq<IndexEntry>)
    requires
        m.wf(),
        forall|k: int| 0 <= k < sorted.len() ==> (#[trigger] sorted[k]).ordinal < m.features.len(),
    ensures
        forall|i: int| 0 <= i < gather(m.features, sorted).len() ==> crate::model::wf_payload(
            #[trigger] gather(m.features, sorted)[i],
        ),
{
    assert forall|i: int| 0 <= i < gather(m.features, sorted).len() implies crate::model::wf_payload(
        gather(m.features, sorted)[i],
    ) by {
        assert(sorted[i].ordinal < m.features.len());
        assert(gather(m.features, sorted)[i] == m.features[sorted[i].ordinal as int]);
    }
}

} // verus!
