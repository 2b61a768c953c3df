//! The binary codec: framing of the file header, the index block and the
//! per-feature frames.
//!
//! All multi-byte integers are little-endian. Signed coordinates are stored
//! offset onto the unsigned 32-bit grid (value plus `0x8000_0000`), which
//! keeps the byte layout free of sign tricks and the order of stored values
//! the order of the coordinates.

use crate::geom::BBox;
use crate::model::{ColumnV, Feature, FgbFile, FileV, Header, HeaderV, IndexMeta, IndexNode, wf_payload};
use vstd::prelude::*;

verus! {

/// The value of `count` little-endian bytes of `b` starting at `pos`.
pub open spec fn le_val(b: Seq<u8>, pos: int, count: nat) -> nat
    decreases count,
{
    if count == 0 {
        0
    } else {
        (b[pos] + 256 * le_val(b, pos + 1, (count - 1) as nat)) as nat
    }
}

/// The two little-endian bytes of a 16-bit value.
pub open spec fn u16_le(v: u16) -> Seq<u8> {
    seq![(v % 0x100) as u8, ((v / 0x100) % 0x100) as u8]
}

/// The four little-endian bytes of a 32-bit value.
pub open spec fn u32_le(v: u32) -> Seq<u8> {
    seq![
        (v % 0x100) as u8,
        ((v / 0x100) % 0x100) as u8,
        ((v / 0x1_0000) % 0x100) as u8,
        ((v / 0x100_0000) % 0x100) as u8,
    ]
}

/// The eight little-endian bytes of a 64-bit value.
pub open spec fn u64_le(v: u64) -> Seq<u8> {
    seq![
        (v % 0x100) as u8,
        ((v / 0x100) % 0x100) as u8,
        ((v / 0x1_0000) % 0x100) as u8,
        ((v / 0x100_0000) % 0x100) as u8,
        ((v / 0x1_0000_0000) % 0x100) as u8,
        ((v / 0x100_0000_0000) % 0x100) as u8,
        ((v / 0x1_0000_0000_0000) % 0x100) as u8,
        ((v / 0x100_0000_0000_0000) % 0x100) as u8,
    ]
}

/// A signed coordinate moved onto the unsigned grid for storage.
pub open spec fn grid_u32(v: i32) -> u32 {
    (v as int + 0x8000_0000) as u32
}

/// The signed coordinate a stored grid value stands for.
pub open spec fn ungrid_i32(g: nat) -> i32 {
    (g - 0x8000_0000) as i32
}

/// The four little-endian bytes of a signed coordinate.
pub open spec fn i32_le(v: i32) -> Seq<u8> {
    u32_le(grid_u32(v))
}

pub proof fn lemma_le_u16(v: u16)
    ensures
        le_val(u16_le(v), 0, 2) == v,
{
    reveal_with_fuel(le_val, 3);
}

pub proof fn lemma_le_u32(v: u32)
    ensures
        le_val(u32_le(v), 0, 4) == v,
{
    reveal_with_fuel(le_val, 5);
}

#[verifier::rlimit(100)]
pub proof fn lemma_le_u64(v: u64)
    ensures
        le_val(u64_le(v), 0, 8) == v,
{
    reveal_with_fuel(le_val, 9);
    assert(v == v % 0x100 + 0x100 * ((v / 0x100) % 0x100) + 0x1_0000 * ((v / 0x1_0000) % 0x100)
        + 0x100_0000 * ((v / 0x100_0000) % 0x100) + 0x1_0000_0000 * ((v / 0x1_0000_0000) % 0x100)
        + 0x100_0000_0000 * ((v / 0x100_0000_0000) % 0x100) + 0x1_0000_0000_0000 * ((v
        / 0x1_0000_0000_0000) % 0x100) + 0x100_0000_0000_0000 * (v / 0x100_0000_0000_0000)) by (bit_vector);
}

pub proof fn lemma_le_i32(v: i32)
    ensures
        le_val(i32_le(v), 0, 4) == grid_u32(v),
        ungrid_i32(grid_u32(v) as nat) == v,
{
    lemma_le_u32(grid_u32(v));
}

/// `le_val` reads only the bytes it is pointed at.
pub proof fn lemma_le_val_subrange(b: Seq<u8>, pos: int, count: nat, s: Seq<u8>)
    requires
        0 <= pos,
        pos + count <= b.len(),
        s =~= b.subrange(pos, pos + count),
    ensures
        le_val(b, pos, count) == le_val(s, 0, count),
    decreases count,
{
    if count > 0 {
        lemma_le_val_subrange(b, pos + 1, (count - 1) as nat, s.subrange(1, count as int));
        assert(s.subrange(1, count as int) =~= b.subrange(pos + 1, pos + count));
        assert(le_val(s, 0, count) == s[0] + 256 * le_val(s.subrange(1, count as int), 0, (count
            - 1) as nat)) by {
            lemma_le_val_subrange(s, 1, (count - 1) as nat, s.subrange(1, count as int));
        }
    }
}

/// The value of `count` bytes is below `256 ^ count`, stated for the widths
/// the format uses.
pub proof fn lemma_le_val_bound(b: Seq<u8>, pos: int, count: nat)
    ensures
        count == 2 ==> le_val(b, pos, count) < 0x1_0000,
        count == 4 ==> le_val(b, pos, count) < 0x1_0000_0000,
        count == 8 ==> le_val(b, pos, count) < 0x1_0000_0000_0000_0000,
    decreases count,
{
    reveal_with_fuel(le_val, 9);
}

pub(crate) fn read_u16(b: &Vec<u8>, pos: usize) -> (r: u16)
    requires
        pos + 2 <= b@.len(),
    ensures
        r as nat == le_val(b@, pos as int, 2),
{
    let n = b.len();
    proof {
        reveal_with_fuel(le_val, 3);
    }
    let b0 = b[pos] as u16;
    let b1 = b[pos + 1] as u16;
    b0 + b1 * 0x100
}

pub(crate) fn read_u32(b: &Vec<u8>, pos: usize) -> (r: u32)
    requires
        pos + 4 <= b@.len(),
    ensures
        r as nat == le_val(b@, pos as int, 4),
{
    let n = b.len();
    proof {
        reveal_with_fuel(le_val, 5);
    }
    let b0 = b[pos] as u32;
    let b1 = b[pos + 1] as u32;
    let b2 = b[pos + 2] as u32;
    let b3 = b[pos + 3] as u32;
    b0 + b1 * 0x100 + b2 * 0x1_0000 + b3 * 0x100_0000
}

pub(crate) fn read_u64(b: &Vec<u8>, pos: usize) -> (r: u64)
    requires
        pos + 8 <= b@.len(),
    ensures
        r as nat == le_val(b@, pos as int, 8),
{
    let n = b.len();
    proof {
        reveal_with_fuel(le_val, 9);
    }
    let b0 = b[pos] as u64;
    let b1 = b[pos + 1] as u64;
    let b2 = b[pos + 2] as u64;
    let b3 = b[pos + 3] as u64;
    let b4 = b[pos + 4] as u64;
    let b5 = b[pos + 5] as u64;
    let b6 = b[pos + 6] as u64;
    let b7 = b[pos + 7] as u64;
    b0 + b1 * 0x100 + b2 * 0x1_0000 + b3 * 0x100_0000 + b4 * 0x1_0000_0000 + b5 * 0x100_0000_0000
        + b6 * 0x1_0000_0000_0000 + b7 * 0x100_0000_0000_0000
}

pub(crate) fn read_i32(b: &Vec<u8>, pos: usize) -> (r: i32)
    requires
        pos + 4 <= b@.len(),
    ensures
        r == ungrid_i32(le_val(b@, pos as int, 4)),
{
    let g = read_u32(b, pos);
    proof {
        lemma_le_val_bound(b@, pos as int, 4);
    }
    ((g as i64) - 0x8000_0000i64) as i32
}

fn push_u16(out: &mut Vec<u8>, v: u16)
    ensures
        final(out)@ =~= old(out)@ + u16_le(v),
{
    out.push((v % 0x100) as u8);
    out.push(((v / 0x100) % 0x100) as u8);
}

fn push_u32(out: &mut Vec<u8>, v: u32)
    ensures
        final(out)@ =~= old(out)@ + u32_le(v),
{
    out.push((v % 0x100) as u8);
    out.push(((v / 0x100) % 0x100) as u8);
    out.push(((v / 0x1_0000) % 0x100) as u8);
    out.push(((v / 0x100_0000) % 0x100) as u8);
}

fn push_u64(out: &mut Vec<u8>, v: u64)
    ensures
        final(out)@ =~= old(out)@ + u64_le(v),
{
    out.push((v % 0x100) as u8);
    out.push(((v / 0x100) % 0x100) as u8);
    out.push(((v / 0x1_0000) % 0x100) as u8);
    out.push(((v / 0x100_0000) % 0x100) as u8);
    out.push(((v / 0x1_0000_0000) % 0x100) as u8);
    out.push(((v / 0x100_0000_0000) % 0x100) as u8);
    out.push(((v / 0x1_0000_0000_0000) % 0x100) as u8);
    out.push(((v / 0x100_0000_0000_0000) % 0x100) as u8);
}

fn push_i32(out: &mut Vec<u8>, v: i32)
    ensures
        final(out)@ =~= old(out)@ + i32_le(v),
{
    let g = ((v as i64) + 0x8000_0000i64) as u32;
    push_u32(out, g);
}


/// The fixed magic prefix; its fourth byte is the format version.
pub open spec fn file_magic() -> Seq<u8> {
    seq![0x66u8, 0x67u8, 0x62u8, 0x03u8, 0x66u8, 0x67u8, 0x62u8, 0x00u8]
}

/// A length-prefixed block of bytes.
pub open spec fn render_block(b: Seq<u8>) -> Seq<u8> {
    u32_le(b.len() as u32) + b
}

pub open spec fn render_column(c: ColumnV) -> Seq<u8> {
    render_block(c.name) + seq![c.col_type, (if c.nullable { 1u8 } else { 0u8 })]
}

pub open spec fn render_columns(cs: Seq<ColumnV>) -> Seq<u8>
    decreases cs.len(),
{
    if cs.len() == 0 {
        Seq::empty()
    } else {
        render_columns(cs.drop_last()) + render_column(cs.last())
    }
}

pub open spec fn render_index_meta(ix: Option<IndexMeta>) -> Seq<u8> {
    match ix {
        None => seq![0u8],
        Some(m) => seq![1u8] + u16_le(m.branching) + u64_le(m.num_nodes),
    }
}

pub open spec fn render_description(d: Option<Seq<u8>>) -> Seq<u8> {
    match d {
        None => seq![0u8],
        Some(s) => seq![1u8] + render_block(s),
    }
}

/// The header block: magic, geometry type, declared feature count, index
/// metadata, CRS authority code, dataset name, optional description and
/// the attribute-column schema.
pub open spec fn render_header(h: HeaderV) -> Seq<u8> {
    file_magic() + seq![h.geometry_type] + u64_le(h.feature_count) + render_index_meta(h.index)
        + i32_le(h.crs_code) + render_block(h.name) + render_description(h.description) + u16_le(
        h.columns.len() as u16,
    ) + render_columns(h.columns)
}

/// One fixed-size index node record: four stored coordinates, then the
/// first-child reference. Nodes are randomly addressable by arithmetic.
pub open spec fn render_node(n: IndexNode) -> Seq<u8> {
    i32_le(n.bbox.min_x) + i32_le(n.bbox.min_y) + i32_le(n.bbox.max_x) + i32_le(n.bbox.max_y)
        + u64_le(n.child)
}

pub open spec fn render_nodes(ns: Seq<IndexNode>) -> Seq<u8>
    decreases ns.len(),
{
    if ns.len() == 0 {
        Seq::empty()
    } else {
        render_nodes(ns.drop_last()) + render_node(ns.last())
    }
}

/// One feature frame: a length prefix, then exactly that many payload bytes.
pub open spec fn render_feature(p: Seq<u8>) -> Seq<u8> {
    render_block(p)
}

pub open spec fn render_features(fs: Seq<Seq<u8>>) -> Seq<u8>
    decreases fs.len(),
{
    if fs.len() == 0 {
        Seq::empty()
    } else {
        render_features(fs.drop_last()) + render_feature(fs.last())
    }
}

/// The whole file: header, then the index block, then the feature block.
pub open spec fn render_file(f: FileV) -> Seq<u8> {
    render_header(f.header) + render_nodes(f.nodes) + render_features(f.features)
}

fn write_block(out: &mut Vec<u8>, b: &Vec<u8>)
    requires
        b@.len() <= 0xFFFF_FFFF,
    ensures
        final(out)@ =~= old(out)@ + render_block(b@),
{
    push_u32(out, b.len() as u32);
    out.extend_from_slice(b.as_slice());
}

/// Encodes the header. Encoding the same header twice yields byte-identical
/// output: the result is a function of the header value alone.
#[verifier::rlimit(100)]
pub fn write_header(out: &mut Vec<u8>, h: &Header)
    requires
        h@.wf(),
    ensures
        final(out)@ =~= old(out)@ + render_header(h@),
{
    out.push(0x66u8);
    out.push(0x67u8);
    out.push(0x62u8);
    out.push(0x03u8);
    out.push(0x66u8);
    out.push(0x67u8);
    out.push(0x62u8);
    out.push(0x00u8);
    out.push(h.geometry_type);
    push_u64(out, h.feature_count);
    match h.index {
        None => out.push(0u8),
        Some(m) => {
            out.push(1u8);
            push_u16(out, m.branching);
            push_u64(out, m.num_nodes);
        },
    }
    push_i32(out, h.crs_code);
    write_block(out, &h.name);
    match h.description {
        None => out.push(0u8),
        Some(ref d) => {
            out.push(1u8);
            write_block(out, d);
        },
    }
    push_u16(out, h.columns.len() as u16);
    let ghost base = out@;
    let ghost cols = h@.columns;
    let n = h.columns.len();
    let mut i: usize = 0;
    while i < n
        invariant
            n == h.columns@.len(),
            cols == h@.columns,
            i <= n,
            h@.wf(),
            out@ =~= base + render_columns(cols.take(i as int)),
        decreases n - i,
    {
        let c = &h.columns[i];
        proof {
            assert(cols[i as int] == c@);
            assert(cols[i as int].wf());
        }
        write_block(out, &c.name);
        out.push(c.col_type);
        out.push(if c.nullable { 1u8 } else { 0u8 });
        proof {
            assert(cols.take(i + 1).drop_last() =~= cols.take(i as int));
            assert(cols.take(i + 1).last() == cols[i as int]);
            assert(out@ =~= base + render_columns(cols.take(i + 1)));
        }
        i = i + 1;
    }
    proof {
        assert(cols.take(n as int) =~= cols);
    }
}

/// Encodes one index node as a fixed-size record.
pub fn write_node(out: &mut Vec<u8>, n: &IndexNode)
    ensures
        final(out)@ =~= old(out)@ + render_node(*n),
{
    push_i32(out, n.bbox.min_x);
    push_i32(out, n.bbox.min_y);
    push_i32(out, n.bbox.max_x);
    push_i32(out, n.bbox.max_y);
    push_u64(out, n.child);
}

/// Encodes one feature frame: the length prefix, then the identical payload.
pub fn write_feature(out: &mut Vec<u8>, f: &Feature)
    requires
        f@.len() <= 0xFFFF_FFFF,
    ensures
        final(out)@ =~= old(out)@ + render_feature(f@),
{
    write_block(out, &f.payload);
}

/// Encodes a whole well-formed file. The output is a function of the value
/// alone — same file value, byte-identical bytes.
pub fn write_file(f: &FgbFile) -> (out: Vec<u8>)
    requires
        f@.wf(),
    ensures
        out@ =~= render_file(f@),
{
    let mut out: Vec<u8> = Vec::new();
    write_header(&mut out, &f.header);
    let ghost after_header = out@;
    let nn = f.nodes.len();
    let mut i: usize = 0;
    while i < nn
        invariant
            nn == f.nodes@.len(),
            i <= nn,
            out@ =~= after_header + render_nodes(f.nodes@.take(i as int)),
        decreases nn - i,
    {
        write_node(&mut out, &f.nodes[i]);
        proof {
            assert(f.nodes@.take(i + 1).drop_last() =~= f.nodes@.take(i as int));
            assert(f.nodes@.take(i + 1).last() == f.nodes@[i as int]);
            assert(out@ =~= after_header + render_nodes(f.nodes@.take(i + 1)));
        }
        i = i + 1;
    }
    proof {
        assert(f.nodes@.take(nn as int) =~= f.nodes@);
    }
    let ghost after_nodes = out@;
    let ghost fs = f@.features;
    let nf = f.features.len();
    let mut j: usize = 0;
    while j < nf
        invariant
            nf == f.features@.len(),
            fs == f@.features,
            j <= nf,
            f@.wf(),
            out@ =~= after_nodes + render_features(fs.take(j as int)),
        decreases nf - j,
    {
        proof {
            assert(fs[j as int] == f.features@[j as int]@);
            assert(wf_payload(fs[j as int]));
        }
        write_feature(&mut out, &f.features[j]);
        proof {
            assert(fs.take(j + 1).drop_last() =~= fs.take(j as int));
            assert(fs.take(j + 1).last() == fs[j as int]);
            assert(out@ =~= after_nodes + render_features(fs.take(j + 1)));
        }
        j = j + 1;
    }
    proof {
        assert(fs.take(nf as int) =~= fs);
        assert(out@ =~= render_file(f@));
    }
    out
}

} // verus!
