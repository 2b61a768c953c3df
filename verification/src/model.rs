//! The data model: header, feature, index node, and whole-file values,
//! together with their ghost views and well-formedness conditions.

use crate::codec::le_val;
use crate::geom::BBox;
use vstd::prelude::*;

verus! {

/// Metadata of a present index: the node capacity the tree was built with
/// and the total node count over all levels (root level first on disk).
/// Per-level node counts follow arithmetically from the feature count and
/// the branching factor, so any level's start offset can be computed without
/// parsing.
#[derive(Clone, Copy, PartialEq, Eq, Structural, Debug)]
pub struct IndexMeta {
    pub branching: u16,
    pub num_nodes: u64,
}

/// One attribute column of the schema: a name, a primitive type tag and a
/// nullability flag.
#[derive(Clone, Debug)]
pub struct Column {
    pub name: Vec<u8>,
    pub col_type: u8,
    pub nullable: bool,
}

pub ghost struct ColumnV {
    pub name: Seq<u8>,
    pub col_type: u8,
    pub nullable: bool,
}

impl View for Column {
    type V = ColumnV;

    open spec fn view(&self) -> ColumnV {
        ColumnV { name: self.name@, col_type: self.col_type, nullable: self.nullable }
    }
}

impl ColumnV {
    pub open spec fn wf(self) -> bool {
        self.name.len() <= 0xFFFF_FFFF
    }
}

/// The file header: geometry-type tag, declared feature count (zero stands
/// for "streamed, count unknown"), index metadata if an index is present,
/// the coordinate-reference-system authority code, the dataset name, an
/// optional description and the attribute-column schema.
#[derive(Clone, Debug)]
pub struct Header {
    pub geometry_type: u8,
    pub feature_count: u64,
    pub index: Option<IndexMeta>,
    pub crs_code: i32,
    pub name: Vec<u8>,
    pub description: Option<Vec<u8>>,
    pub columns: Vec<Column>,
}

pub ghost struct HeaderV {
    pub geometry_type: u8,
    pub feature_count: u64,
    pub index: Option<IndexMeta>,
    pub crs_code: i32,
    pub name: Seq<u8>,
    pub description: Option<Seq<u8>>,
    pub columns: Seq<ColumnV>,
}

impl View for Header {
    type V = HeaderV;

    open spec fn view(&self) -> HeaderV {
        HeaderV {
            geometry_type: self.geometry_type,
            feature_count: self.feature_count,
            index: self.index,
            crs_code: self.crs_code,
            name: self.name@,
            description: match self.description {
                Some(ref d) => Some(d@),
                None => None,
            },
            columns: self.columns@.map_values(|c: Column| c@),
        }
    }
}

impl HeaderV {
    pub open spec fn wf(self) -> bool {
        &&& self.name.len() <= 0xFFFF_FFFF
        &&& match self.description {
            Some(d) => d.len() <= 0xFFFF_FFFF,
            None => true,
        }
        &&& self.columns.len() <= 0xFFFF
        &&& forall|i: int| 0 <= i < self.columns.len() ==> (#[trigger] self.columns[i]).wf()
        &&& match self.index {
            Some(m) => m.branching >= 2,
            None => true,
        }
    }
}

/// One serialized index node: its bounding box and the position of its
/// first child — a node position within the child level for an internal
/// node, a feature position in the written feature order for a leaf.
#[derive(Clone, Copy, PartialEq, Eq, Structural, Debug)]
pub struct IndexNode {
    pub bbox: BBox,
    pub child: u64,
}

/// One feature: an opaque payload carrying its geometry and attributes.
/// The payload starts with the point count (four little-endian bytes),
/// followed by that many planar points (two stored coordinates each); any
/// remaining bytes are attribute data the codec does not interpret.
#[derive(Clone, PartialEq, Eq, Debug)]
pub struct Feature {
    pub payload: Vec<u8>,
}

impl View for Feature {
    type V = Seq<u8>;

    open spec fn view(&self) -> Seq<u8> {
        self.payload@
    }
}

/// The number of points a payload declares.
pub open spec fn payload_n_points(p: Seq<u8>) -> nat {
    le_val(p, 0, 4)
}

/// A structurally valid payload: it holds its point count and all declared
/// points, and fits a 32-bit length frame.
pub open spec fn wf_payload(p: Seq<u8>) -> bool {
    &&& p.len() >= 4
    &&& p.len() <= 0xFFFF_FFFF
    &&& p.len() >= 4 + 8 * payload_n_points(p)
}

/// A whole decoded file.
pub struct FgbFile {
    pub header: Header,
    pub nodes: Vec<IndexNode>,
    pub features: Vec<Feature>,
}

pub ghost struct FileV {
    pub header: HeaderV,
    pub nodes: Seq<IndexNode>,
    pub features: Seq<Seq<u8>>,
}

impl View for FgbFile {
    type V = FileV;

    open spec fn view(&self) -> FileV {
        FileV {
            header: self.header@,
            nodes: self.nodes@,
            features: self.features@.map_values(|f: Feature| f@),
        }
    }
}

impl FileV {
    /// Well-formed files are exactly those the codec can frame: every
    /// declared length fits its width, the node count matches the index
    /// metadata, a nonzero declared feature count is the real one, and
    /// every payload is structurally valid.
    pub open spec fn wf(self) -> bool {
        &&& self.header.wf()
        &&& match self.header.index {
            None => self.nodes.len() == 0,
            Some(m) => self.nodes.len() == m.num_nodes,
        }
        &&& (self.header.feature_count == 0 || self.header.feature_count
            == self.features.len())
        &&& forall|i: int| 0 <= i < self.features.len() ==> wf_payload(
            #[trigger] self.features[i],
        )
    }
}

} // verus!
