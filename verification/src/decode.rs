//! Decoding: reading a file back out of its bytes.
//!
//! The parse functions are the codec's reading side, stated as total
//! functions on byte sequences; the executable readers are proved equal to
//! them, and rendering followed by parsing gives back the rendered value.

use crate::codec::{
    file_magic, read_i32, read_u16, read_u32, read_u64, i32_le, le_val, lemma_le_i32, lemma_le_u16, lemma_le_u32, lemma_le_u64,
    lemma_le_val_bound, lemma_le_val_subrange, render_block, render_column, render_columns,
    render_description, render_feature, render_features, render_file, render_header,
    render_index_meta, render_node, render_nodes, u16_le, u32_le, u64_le, ungrid_i32,
};
use crate::geom::BBox;
use crate::model::{
    payload_n_points, wf_payload, Column, ColumnV, Feature, FgbFile, FileV, Header, HeaderV,
    IndexMeta, IndexNode,
};
use crate::Error;
use vstd::prelude::*;

verus! {

/// Reads a length-prefixed block inside the header.
pub open spec fn parse_block(b: Seq<u8>, pos: int) -> Result<(Seq<u8>, int), Error> {
    if pos + 4 > b.len() {
        Err(Error::MalformedHeader)
    } else {
        let n = le_val(b, pos, 4) as int;
        if pos + 4 + n > b.len() {
            Err(Error::MalformedHeader)
        } else {
            Ok((b.subrange(pos + 4, pos + 4 + n), pos + 4 + n))
        }
    }
}

/// Reads `count` schema columns.
pub open spec fn parse_columns(b: Seq<u8>, pos: int, count: nat) -> Result<
    (Seq<ColumnV>, int),
    Error,
>
    decreases count,
{
    if count == 0 {
        Ok((Seq::empty(), pos))
    } else {
        match parse_block(b, pos) {
            Err(e) => Err(e),
            Ok((name, p2)) => {
                if p2 + 2 > b.len() {
                    Err(Error::MalformedHeader)
                } else if b[p2 + 1] != 0 && b[p2 + 1] != 1 {
                    Err(Error::MalformedHeader)
                } else {
                    let c = ColumnV { name: name, col_type: b[p2], nullable: b[p2 + 1] == 1 };
                    match parse_columns(b, p2 + 2, (count - 1) as nat) {
                        Err(e) => Err(e),
                        Ok((rest, p3)) => Ok((seq![c] + rest, p3)),
                    }
                }
            },
        }
    }
}

/// Reads the column count and the columns, then closes the header.
pub open spec fn parse_header_tail(
    b: Seq<u8>,
    pos: int,
    geometry_type: u8,
    feature_count: u64,
    index: Option<IndexMeta>,
    crs_code: i32,
    name: Seq<u8>,
    description: Option<Seq<u8>>,
) -> Result<(HeaderV, int), Error> {
    if pos + 2 > b.len() {
        Err(Error::MalformedHeader)
    } else {
        match parse_columns(b, pos + 2, le_val(b, pos, 2)) {
            Err(e) => Err(e),
            Ok((columns, p)) => Ok(
                (
                    HeaderV {
                        geometry_type,
                        feature_count,
                        index,
                        crs_code,
                        name,
                        description,
                        columns,
                    },
                    p,
                ),
            ),
        }
    }
}

/// Reads the header: validates the fixed magic prefix and the version byte
/// first and fails fast on a mismatch, then reads the fields in order.
pub open spec fn parse_header(b: Seq<u8>) -> Result<(HeaderV, int), Error> {
    if b.len() < 8 || b.subrange(0, 8) != file_magic() {
        Err(Error::MalformedHeader)
    } else if b.len() < 18 {
        Err(Error::MalformedHeader)
    } else {
        let geometry_type = b[8];
        let feature_count = le_val(b, 9, 8) as u64;
        let iflag = b[17];
        if iflag != 0 && iflag != 1 {
            Err(Error::MalformedHeader)
        } else if iflag == 1 && (b.len() < 28 || le_val(b, 18, 2) < 2) {
            Err(Error::MalformedHeader)
        } else {
            let index = if iflag == 1 {
                Some(
                    IndexMeta {
                        branching: le_val(b, 18, 2) as u16,
                        num_nodes: le_val(b, 20, 8) as u64,
                    },
                )
            } else {
                None
            };
            let p1: int = if iflag == 1 {
                28
            } else {
                18
            };
            if p1 + 4 > b.len() {
                Err(Error::MalformedHeader)
            } else {
                let crs_code = ungrid_i32(le_val(b, p1, 4));
                match parse_block(b, p1 + 4) {
                    Err(e) => Err(e),
                    Ok((name, p2)) => {
                        if p2 + 1 > b.len() {
                            Err(Error::MalformedHeader)
                        } else if b[p2] != 0 && b[p2] != 1 {
                            Err(Error::MalformedHeader)
                        } else if b[p2] == 0 {
                            parse_header_tail(
                                b,
                                p2 + 1,
                                geometry_type,
                                feature_count,
                                index,
                                crs_code,
                                name,
                                None,
                            )
                        } else {
                            match parse_block(b, p2 + 1) {
                                Err(e) => Err(e),
                                Ok((d, p3)) => parse_header_tail(
                                    b,
                                    p3,
                                    geometry_type,
                                    feature_count,
                                    index,
                                    crs_code,
                                    name,
                                    Some(d),
                                ),
                            }
                        }
                    },
                }
            }
        }
    }
}

/// Reads `count` fixed-size index node records.
pub open spec fn parse_nodes(b: Seq<u8>, pos: int, count: nat) -> Result<
    (Seq<IndexNode>, int),
    Error,
>
    decreases count,
{
    if count == 0 {
        Ok((Seq::empty(), pos))
    } else if pos + 24 > b.len() {
        Err(Error::UnexpectedEof)
    } else {
        let nd = IndexNode {
            bbox: BBox {
                min_x: ungrid_i32(le_val(b, pos, 4)),
                min_y: ungrid_i32(le_val(b, pos + 4, 4)),
                max_x: ungrid_i32(le_val(b, pos + 8, 4)),
                max_y: ungrid_i32(le_val(b, pos + 12, 4)),
            },
            child: le_val(b, pos + 16, 8) as u64,
        };
        match parse_nodes(b, pos + 24, (count - 1) as nat) {
            Err(e) => Err(e),
            Ok((rest, p)) => Ok((seq![nd] + rest, p)),
        }
    }
}

/// Reads one feature frame: the length prefix, then exactly that many
/// bytes. A prefix or payload that points past the end of the input is
/// `UnexpectedEof`; a payload that fails structural decoding is
/// `MalformedFeature`.
pub open spec fn parse_feature(b: Seq<u8>, pos: int) -> Result<(Seq<u8>, int), Error> {
    if pos + 4 > b.len() {
        Err(Error::UnexpectedEof)
    } else {
        let n = le_val(b, pos, 4) as int;
        if pos + 4 + n > b.len() {
            Err(Error::UnexpectedEof)
        } else {
            let p = b.subrange(pos + 4, pos + 4 + n);
            if !wf_payload(p) {
                Err(Error::MalformedFeature)
            } else {
                Ok((p, pos + 4 + n))
            }
        }
    }
}

/// Reads exactly `count` feature frames, for a header that declares its
/// feature count.
pub open spec fn parse_features_known(b: Seq<u8>, pos: int, count: nat) -> Result<
    (Seq<Seq<u8>>, int),
    Error,
>
    decreases count,
{
    if count == 0 {
        Ok((Seq::empty(), pos))
    } else {
        match parse_feature(b, pos) {
            Err(e) => Err(e),
            Ok((p, p2)) => match parse_features_known(b, p2, (count - 1) as nat) {
                Err(e) => Err(e),
                Ok((rest, p3)) => Ok((seq![p] + rest, p3)),
            },
        }
    }
}

/// Reads feature frames until the input is exhausted, for a header whose
/// declared count is the unknown sentinel.
pub open spec fn parse_features_eof(b: Seq<u8>, pos: int) -> Result<Seq<Seq<u8>>, Error>
    decreases b.len() - pos,
{
    if pos >= b.len() {
        Ok(Seq::empty())
    } else if pos + 4 > b.len() {
        Err(Error::UnexpectedEof)
    } else {
        let n = le_val(b, pos, 4) as int;
        if pos + 4 + n > b.len() {
            Err(Error::UnexpectedEof)
        } else {
            let p = b.subrange(pos + 4, pos + 4 + n);
            if !wf_payload(p) {
                Err(Error::MalformedFeature)
            } else {
                match parse_features_eof(b, pos + 4 + n) {
                    Err(e) => Err(e),
                    Ok(rest) => Ok(seq![p] + rest),
                }
            }
        }
    }
}

/// Reads a whole file. Bytes trailing a declared feature count are refused,
/// so every byte of a valid file is accounted for.
pub open spec fn parse_file(b: Seq<u8>) -> Result<FileV, Error> {
    match parse_header(b) {
        Err(e) => Err(e),
        Ok((h, pos)) => {
            let ncount: nat = match h.index {
                Some(m) => m.num_nodes as nat,
                None => 0,
            };
            match parse_nodes(b, pos, ncount) {
                Err(e) => Err(e),
                Ok((nodes, p2)) => {
                    if h.feature_count > 0 {
                        match parse_features_known(b, p2, h.feature_count as nat) {
                            Err(e) => Err(e),
                            Ok((fs, p3)) => {
                                if p3 != b.len() {
                                    Err(Error::MalformedFeature)
                                } else {
                                    Ok(FileV { header: h, nodes: nodes, features: fs })
                                }
                            },
                        }
                    } else {
                        match parse_features_eof(b, p2) {
                            Err(e) => Err(e),
                            Ok(fs) => Ok(FileV { header: h, nodes: nodes, features: fs }),
                        }
                    }
                },
            }
        },
    }
}


/// Rendering a column list decomposes from the left as the parser reads it.
pub proof fn lemma_render_columns_first(cs: Seq<ColumnV>)
    requires
        cs.len() > 0,
    ensures
        render_columns(cs) =~= render_column(cs.first()) + render_columns(cs.drop_first()),
    decreases cs.len(),
{
    if cs.len() == 1 {
        assert(cs.drop_last() =~= Seq::<ColumnV>::empty());
        assert(cs.drop_first() =~= Seq::<ColumnV>::empty());
        assert(cs.last() == cs.first());
    } else {
        lemma_render_columns_first(cs.drop_last());
        assert(cs.drop_last().first() == cs.first());
        assert(cs.drop_last().drop_first() =~= cs.drop_first().drop_last());
        assert(cs.drop_first().last() == cs.last());
    }
}

pub proof fn lemma_render_nodes_first(ns: Seq<IndexNode>)
    requires
        ns.len() > 0,
    ensures
        render_nodes(ns) =~= render_node(ns.first()) + render_nodes(ns.drop_first()),
    decreases ns.len(),
{
    if ns.len() == 1 {
        assert(ns.drop_last() =~= Seq::<IndexNode>::empty());
        assert(ns.drop_first() =~= Seq::<IndexNode>::empty());
        assert(ns.last() == ns.first());
    } else {
        lemma_render_nodes_first(ns.drop_last());
        assert(ns.drop_last().first() == ns.first());
        assert(ns.drop_last().drop_first() =~= ns.drop_first().drop_last());
        assert(ns.drop_first().last() == ns.last());
    }
}

pub proof fn lemma_render_features_first(fs: Seq<Seq<u8>>)
    requires
        fs.len() > 0,
    ensures
        render_features(fs) =~= render_feature(fs.first()) + render_features(fs.drop_first()),
    decreases fs.len(),
{
    if fs.len() == 1 {
        assert(fs.drop_last() =~= Seq::<Seq<u8>>::empty());
        assert(fs.drop_first() =~= Seq::<Seq<u8>>::empty());
        assert(fs.last() == fs.first());
    } else {
        lemma_render_features_first(fs.drop_last());
        assert(fs.drop_last().first() == fs.first());
        assert(fs.drop_last().drop_first() =~= fs.drop_first().drop_last());
        assert(fs.drop_first().last() == fs.last());
    }
}

/// A subrange of a described region of `b`, seen through the region.
pub proof fn lemma_subrange_of_subrange(b: Seq<u8>, pos: int, len: int, lo: int, hi: int)
    requires
        0 <= pos,
        0 <= lo <= hi <= len,
        pos + len <= b.len(),
    ensures
        b.subrange(pos + lo, pos + hi) =~= b.subrange(pos, pos + len).subrange(lo, hi),
{
}

/// A rendered block parses back to its contents.
pub proof fn lemma_parse_block_render(b: Seq<u8>, pos: int, s: Seq<u8>)
    requires
        0 <= pos,
        s.len() <= 0xFFFF_FFFF,
        pos + 4 + s.len() <= b.len(),
        b.subrange(pos, pos + 4 + s.len()) =~= render_block(s),
    ensures
        parse_block(b, pos) == Ok::<_, Error>((s, pos + 4 + s.len())),
{
    let n = s.len() as int;
    let rb = render_block(s);
    lemma_subrange_of_subrange(b, pos, 4 + n, 0, 4);
    assert(rb.subrange(0, 4) =~= u32_le(s.len() as u32));
    lemma_le_val_subrange(b, pos, 4, u32_le(s.len() as u32));
    lemma_le_u32(s.len() as u32);
    assert(le_val(b, pos, 4) == s.len());
    lemma_subrange_of_subrange(b, pos, 4 + n, 4, 4 + n);
    assert(rb.subrange(4, 4 + n) =~= s);
    assert(b.subrange(pos + 4, pos + 4 + n) =~= s);
}

/// Where the fields of one rendered column sit.
#[verifier::rlimit(100)]
pub proof fn lemma_column_fields(b: Seq<u8>, pos: int, c: ColumnV)
    requires
        0 <= pos,
        c.wf(),
        pos + render_column(c).len() <= b.len(),
        b.subrange(pos, pos + render_column(c).len()) =~= render_column(c),
    ensures
        parse_block(b, pos) == Ok::<_, Error>((c.name, pos + 4 + c.name.len())),
        b[pos + 4 + c.name.len()] == c.col_type,
        b[pos + 4 + c.name.len() + 1] == (if c.nullable { 1u8 } else { 0u8 }),
{
    let nl: int = c.name.len() as int;
    let rc = render_column(c);
    let l: int = rc.len() as int;
    assert(l == 4 + nl + 2);
    lemma_subrange_of_subrange(b, pos, l, 0, 4 + nl);
    assert(rc.subrange(0, 4 + nl) =~= render_block(c.name));
    lemma_parse_block_render(b, pos, c.name);
    assert(b[pos + 4 + nl] == b.subrange(pos, pos + l)[4 + nl]);
    assert(rc[4 + nl] == c.col_type);
    assert(b[pos + 4 + nl + 1] == b.subrange(pos, pos + l)[4 + nl + 1]);
    assert(rc[4 + nl + 1] == (if c.nullable { 1u8 } else { 0u8 }));
}

/// Rendered columns parse back to themselves, leaving the position right
/// after them.
#[verifier::rlimit(100)]
pub proof fn lemma_parse_columns_render(b: Seq<u8>, pos: int, cs: Seq<ColumnV>)
    requires
        0 <= pos,
        forall|i: int| 0 <= i < cs.len() ==> (#[trigger] cs[i]).wf(),
        pos + render_columns(cs).len() <= b.len(),
        b.subrange(pos, pos + render_columns(cs).len()) =~= render_columns(cs),
    ensures
        parse_columns(b, pos, cs.len()) == Ok::<_, Error>((cs, pos + render_columns(cs).len())),
    decreases cs.len(),
{
    if cs.len() == 0 {
        assert(cs =~= Seq::<ColumnV>::empty());
    } else {
        let c = cs.first();
        lemma_render_columns_first(cs);
        let rest = render_columns(cs.drop_first());
        let big = render_columns(cs);
        let l: int = big.len() as int;
        assert(cs[0].wf());
        let cl: int = render_column(c).len() as int;
        lemma_subrange_of_subrange(b, pos, l, 0, cl);
        assert(big.subrange(0, cl) =~= render_column(c));
        lemma_column_fields(b, pos, c);
        let p2: int = pos + 4 + c.name.len();
        assert(ColumnV { name: c.name, col_type: b[p2], nullable: b[p2 + 1] == 1 } == c);
        lemma_subrange_of_subrange(b, pos, l, cl, l);
        assert(big.subrange(cl, l) =~= rest);
        assert(b.subrange(p2 + 2, p2 + 2 + rest.len()) =~= rest);
        assert(forall|i: int|
            0 <= i < cs.drop_first().len() ==> (#[trigger] cs.drop_first()[i]).wf());
        lemma_parse_columns_render(b, p2 + 2, cs.drop_first());
        assert(seq![c] + cs.drop_first() =~= cs);
    }
}

/// Where each header field sits in the rendered bytes.
#[verifier::rlimit(100)]
pub proof fn lemma_header_layout(h: HeaderV, rest: Seq<u8>)
    requires
        h.wf(),
    ensures
        ({
            let b = render_header(h) + rest;
            let iml: int = render_index_meta(h.index).len() as int;
            let del: int = render_description(h.description).len() as int;
            let p1: int = 17 + iml;
            let p2: int = p1 + 4 + 4 + h.name.len();
            let p3: int = p2 + del;
            &&& b.len() == render_header(h).len() + rest.len()
            &&& render_header(h).len() == p3 + 2 + render_columns(h.columns).len()
            &&& b.subrange(0, 8) =~= file_magic()
            &&& b[8] == h.geometry_type
            &&& b.subrange(9, 17) =~= u64_le(h.feature_count)
            &&& b.subrange(17, 17 + iml) =~= render_index_meta(h.index)
            &&& b.subrange(p1, p1 + 4) =~= i32_le(h.crs_code)
            &&& b.subrange(p1 + 4, p2) =~= render_block(h.name)
            &&& b.subrange(p2, p2 + del) =~= render_description(h.description)
            &&& b.subrange(p3, p3 + 2) =~= u16_le(h.columns.len() as u16)
            &&& b.subrange(p3 + 2, p3 + 2 + render_columns(h.columns).len())
                =~= render_columns(h.columns)
        }),
{
    let m = file_magic();
    let g = seq![h.geometry_type];
    let fc = u64_le(h.feature_count);
    let im = render_index_meta(h.index);
    let cr = i32_le(h.crs_code);
    let nm = render_block(h.name);
    let de = render_description(h.description);
    let cc = u16_le(h.columns.len() as u16);
    let cols = render_columns(h.columns);
    let b = render_header(h) + rest;
    assert(b =~= m + g + fc + im + cr + nm + de + cc + cols + rest);
}

/// A rendered header followed by anything parses back to the header value,
/// leaving the position right after it.
#[verifier::rlimit(100)]
pub proof fn lemma_parse_header_render(h: HeaderV, rest: Seq<u8>)
    requires
        h.wf(),
    ensures
        parse_header(render_header(h) + rest) == Ok::<_, Error>(
            (h, render_header(h).len() as int),
        ),
{
    lemma_header_layout(h, rest);
    let b = render_header(h) + rest;
    let hl: int = render_header(h).len() as int;
    let im = render_index_meta(h.index);
    let de = render_description(h.description);
    let iml: int = im.len() as int;
    let del: int = de.len() as int;
    lemma_le_val_subrange(b, 9, 8, u64_le(h.feature_count));
    lemma_le_u64(h.feature_count);
    match h.index {
        None => {
            assert(im =~= seq![0u8]);
            assert(b[17] == b.subrange(17, 18)[0]);
            assert(b[17] == 0u8);
        },
        Some(meta) => {
            assert(im =~= seq![1u8] + u16_le(meta.branching) + u64_le(meta.num_nodes));
            assert(b[17] == b.subrange(17, 28)[0]);
            assert(b[17] == 1u8);
            assert(b.subrange(18, 20) =~= b.subrange(17, 28).subrange(1, 3));
            assert(b.subrange(18, 20) =~= u16_le(meta.branching));
            lemma_le_val_subrange(b, 18, 2, u16_le(meta.branching));
            lemma_le_u16(meta.branching);
            assert(b.subrange(20, 28) =~= b.subrange(17, 28).subrange(3, 11));
            assert(b.subrange(20, 28) =~= u64_le(meta.num_nodes));
            lemma_le_val_subrange(b, 20, 8, u64_le(meta.num_nodes));
            lemma_le_u64(meta.num_nodes);
        },
    }
    let p1: int = 17 + iml;
    lemma_le_val_subrange(b, p1, 4, i32_le(h.crs_code));
    lemma_le_i32(h.crs_code);
    lemma_parse_block_render(b, p1 + 4, h.name);
    let p2: int = p1 + 4 + 4 + h.name.len();
    match h.description {
        None => {
            assert(de =~= seq![0u8]);
            assert(b[p2] == b.subrange(p2, p2 + 1)[0]);
            assert(b[p2] == 0u8);
        },
        Some(d) => {
            assert(de =~= seq![1u8] + render_block(d));
            assert(b[p2] == b.subrange(p2, p2 + del)[0]);
            assert(b[p2] == 1u8);
            assert(b.subrange(p2 + 1, p2 + del) =~= b.subrange(p2, p2 + del).subrange(1, del));
            assert(b.subrange(p2 + 1, p2 + 1 + 4 + d.len()) =~= render_block(d));
            lemma_parse_block_render(b, p2 + 1, d);
        },
    }
    let p3: int = p2 + del;
    lemma_le_val_subrange(b, p3, 2, u16_le(h.columns.len() as u16));
    lemma_le_u16(h.columns.len() as u16);
    lemma_parse_columns_render(b, p3 + 2, h.columns);
    assert(p3 + 2 + render_columns(h.columns).len() == hl);
    let r = parse_header(b);
    assert(r is Ok);
    assert(r->Ok_0.0 == h);
    assert(r->Ok_0.1 == hl);
}

/// The field values of one rendered node record.
#[verifier::rlimit(100)]
pub proof fn lemma_node_fields(b: Seq<u8>, pos: int, nd: IndexNode)
    requires
        0 <= pos,
        pos + 24 <= b.len(),
        b.subrange(pos, pos + 24) =~= render_node(nd),
    ensures
        ungrid_i32(le_val(b, pos, 4)) == nd.bbox.min_x,
        ungrid_i32(le_val(b, pos + 4, 4)) == nd.bbox.min_y,
        ungrid_i32(le_val(b, pos + 8, 4)) == nd.bbox.max_x,
        ungrid_i32(le_val(b, pos + 12, 4)) == nd.bbox.max_y,
        le_val(b, pos + 16, 8) == nd.child,
{
    lemma_subrange_of_subrange(b, pos, 24, 0, 4);
    assert(render_node(nd).subrange(0, 4) =~= i32_le(nd.bbox.min_x));
    lemma_le_val_subrange(b, pos, 4, i32_le(nd.bbox.min_x));
    lemma_le_i32(nd.bbox.min_x);
    lemma_subrange_of_subrange(b, pos, 24, 4, 8);
    assert(render_node(nd).subrange(4, 8) =~= i32_le(nd.bbox.min_y));
    lemma_le_val_subrange(b, pos + 4, 4, i32_le(nd.bbox.min_y));
    lemma_le_i32(nd.bbox.min_y);
    lemma_subrange_of_subrange(b, pos, 24, 8, 12);
    assert(render_node(nd).subrange(8, 12) =~= i32_le(nd.bbox.max_x));
    lemma_le_val_subrange(b, pos + 8, 4, i32_le(nd.bbox.max_x));
    lemma_le_i32(nd.bbox.max_x);
    lemma_subrange_of_subrange(b, pos, 24, 12, 16);
    assert(render_node(nd).subrange(12, 16) =~= i32_le(nd.bbox.max_y));
    lemma_le_val_subrange(b, pos + 12, 4, i32_le(nd.bbox.max_y));
    lemma_le_i32(nd.bbox.max_y);
    lemma_subrange_of_subrange(b, pos, 24, 16, 24);
    assert(render_node(nd).subrange(16, 24) =~= u64_le(nd.child));
    lemma_le_val_subrange(b, pos + 16, 8, u64_le(nd.child));
    lemma_le_u64(nd.child);
}

/// Rendered nodes parse back to themselves.
#[verifier::rlimit(100)]
pub proof fn lemma_parse_nodes_render(b: Seq<u8>, pos: int, ns: Seq<IndexNode>)
    requires
        0 <= pos,
        pos + render_nodes(ns).len() <= b.len(),
        b.subrange(pos, pos + render_nodes(ns).len()) =~= render_nodes(ns),
    ensures
        parse_nodes(b, pos, ns.len()) == Ok::<_, Error>((ns, pos + render_nodes(ns).len())),
    decreases ns.len(),
{
    if ns.len() == 0 {
        assert(ns =~= Seq::<IndexNode>::empty());
    } else {
        let nd = ns.first();
        lemma_render_nodes_first(ns);
        let rest = render_nodes(ns.drop_first());
        let big = render_nodes(ns);
        let l: int = big.len() as int;
        lemma_subrange_of_subrange(b, pos, l, 0, 24);
        assert(big.subrange(0, 24) =~= render_node(nd));
        lemma_node_fields(b, pos, nd);
        lemma_subrange_of_subrange(b, pos, l, 24, l);
        assert(big.subrange(24, l) =~= rest);
        assert(b.subrange(pos + 24, pos + 24 + rest.len()) =~= rest);
        lemma_parse_nodes_render(b, pos + 24, ns.drop_first());
        assert(seq![nd] + ns.drop_first() =~= ns);
    }
}

/// A rendered feature frame parses back to its payload.
pub proof fn lemma_parse_feature_render(b: Seq<u8>, pos: int, p: Seq<u8>)
    requires
        0 <= pos,
        wf_payload(p),
        pos + 4 + p.len() <= b.len(),
        b.subrange(pos, pos + 4 + p.len()) =~= render_feature(p),
    ensures
        parse_feature(b, pos) == Ok::<_, Error>((p, pos + 4 + p.len())),
{
    let n = p.len() as int;
    let rf = render_feature(p);
    lemma_subrange_of_subrange(b, pos, 4 + n, 0, 4);
    assert(rf.subrange(0, 4) =~= u32_le(p.len() as u32));
    lemma_le_val_subrange(b, pos, 4, u32_le(p.len() as u32));
    lemma_le_u32(p.len() as u32);
    assert(le_val(b, pos, 4) == p.len());
    lemma_subrange_of_subrange(b, pos, 4 + n, 4, 4 + n);
    assert(rf.subrange(4, 4 + n) =~= p);
    assert(b.subrange(pos + 4, pos + 4 + n) =~= p);
}

/// Rendered feature frames parse back under a declared count.
#[verifier::rlimit(100)]
pub proof fn lemma_parse_features_known_render(b: Seq<u8>, pos: int, fs: Seq<Seq<u8>>)
    requires
        0 <= pos,
        forall|i: int| 0 <= i < fs.len() ==> wf_payload(#[trigger] fs[i]),
        pos + render_features(fs).len() <= b.len(),
        b.subrange(pos, pos + render_features(fs).len()) =~= render_features(fs),
    ensures
        parse_features_known(b, pos, fs.len()) == Ok::<_, Error>(
            (fs, pos + render_features(fs).len()),
        ),
    decreases fs.len(),
{
    if fs.len() == 0 {
        assert(fs =~= Seq::<Seq<u8>>::empty());
    } else {
        let p = fs.first();
        lemma_render_features_first(fs);
        let rest = render_features(fs.drop_first());
        let big = render_features(fs);
        let l: int = big.len() as int;
        assert(fs[0] == p);
        lemma_subrange_of_subrange(b, pos, l, 0, 4 + p.len() as int);
        assert(big.subrange(0, 4 + p.len() as int) =~= render_feature(p));
        lemma_parse_feature_render(b, pos, p);
        let p2: int = pos + 4 + p.len();
        lemma_subrange_of_subrange(b, pos, l, 4 + p.len() as int, l);
        assert(big.subrange(4 + p.len() as int, l) =~= rest);
        assert(b.subrange(p2, p2 + rest.len()) =~= rest);
        assert(forall|i: int|
            0 <= i < fs.drop_first().len() ==> wf_payload(#[trigger] fs.drop_first()[i]));
        lemma_parse_features_known_render(b, p2, fs.drop_first());
        assert(seq![p] + fs.drop_first() =~= fs);
    }
}

/// Rendered feature frames that run to the end of the input parse back in
/// the unknown-count mode.
#[verifier::rlimit(100)]
pub proof fn lemma_parse_features_eof_render(b: Seq<u8>, pos: int, fs: Seq<Seq<u8>>)
    requires
        0 <= pos <= b.len(),
        forall|i: int| 0 <= i < fs.len() ==> wf_payload(#[trigger] fs[i]),
        pos + render_features(fs).len() == b.len(),
        b.subrange(pos, b.len() as int) =~= render_features(fs),
    ensures
        parse_features_eof(b, pos) == Ok::<_, Error>(fs),
    decreases fs.len(),
{
    if fs.len() == 0 {
        assert(pos == b.len());
        assert(fs =~= Seq::<Seq<u8>>::empty());
    } else {
        let p = fs.first();
        lemma_render_features_first(fs);
        let rest = render_features(fs.drop_first());
        let big = render_features(fs);
        let l: int = big.len() as int;
        assert(fs[0] == p);
        lemma_subrange_of_subrange(b, pos, l, 0, 4);
        assert(big.subrange(0, 4) =~= u32_le(p.len() as u32));
        lemma_le_val_subrange(b, pos, 4, u32_le(p.len() as u32));
        lemma_le_u32(p.len() as u32);
        assert(le_val(b, pos, 4) == p.len());
        lemma_subrange_of_subrange(b, pos, l, 4, 4 + p.len() as int);
        assert(big.subrange(4, 4 + p.len() as int) =~= p);
        assert(b.subrange(pos + 4, pos + 4 + p.len()) =~= p);
        let p2: int = pos + 4 + p.len();
        lemma_subrange_of_subrange(b, pos, l, 4 + p.len() as int, l);
        assert(big.subrange(4 + p.len() as int, l) =~= rest);
        assert(b.subrange(p2, b.len() as int) =~= rest);
        assert(forall|i: int|
            0 <= i < fs.drop_first().len() ==> wf_payload(#[trigger] fs.drop_first()[i]));
        lemma_parse_features_eof_render(b, p2, fs.drop_first());
        assert(seq![p] + fs.drop_first() =~= fs);
    }
}

/// Round trip: parsing the rendering of any well-formed file gives exactly
/// that file back. Together with the parser's totality this makes the
/// rendering canonical.
pub proof fn lemma_parse_render_file(f: FileV)
    requires
        f.wf(),
    ensures
        parse_file(render_file(f)) == Ok::<_, Error>(f),
{
    let b = render_file(f);
    let hb = render_header(f.header);
    let nb = render_nodes(f.nodes);
    let fb = render_features(f.features);
    assert(b =~= hb + (nb + fb));
    lemma_parse_header_render(f.header, nb + fb);
    assert(parse_header(b) == Ok::<_, Error>((f.header, hb.len() as int)));
    let ncount: nat = match f.header.index {
        Some(m) => m.num_nodes as nat,
        None => 0,
    };
    assert(ncount == f.nodes.len());
    assert(b.subrange(hb.len() as int, (hb.len() + nb.len()) as int) =~= nb);
    lemma_parse_nodes_render(b, hb.len() as int, f.nodes);
    let p2: int = (hb.len() + nb.len()) as int;
    if f.header.feature_count > 0 {
        assert(f.header.feature_count as nat == f.features.len());
        assert(b.subrange(p2, p2 + fb.len()) =~= fb);
        lemma_parse_features_known_render(b, p2, f.features);
        assert(p2 + fb.len() == b.len());
    } else {
        assert(b.subrange(p2, b.len() as int) =~= fb);
        lemma_parse_features_eof_render(b, p2, f.features);
    }
}


/// Reads a length-prefixed block out of the header region.
fn read_block(b: &Vec<u8>, pos: usize) -> (r: Result<(Vec<u8>, usize), Error>)
    requires
        pos <= b@.len(),
    ensures
        match r {
            Ok((v, p)) => parse_block(b@, pos as int) == Ok::<_, Error>((v@, p as int)) && p
                <= b@.len(),
            Err(e) => parse_block(b@, pos as int) == Err::<(Seq<u8>, int), Error>(e),
        },
{
    let len = b.len();
    if len - pos < 4 {
        return Err(Error::MalformedHeader);
    }
    let n32 = read_u32(b, pos);
    proof {
        vstd::arithmetic::power2::lemma2_to64();
    }
    let n = n32 as usize;
    if len - pos - 4 < n {
        return Err(Error::MalformedHeader);
    }
    let s = vstd::slice::slice_subrange(b.as_slice(), pos + 4, pos + 4 + n);
    let v = vstd::slice::slice_to_vec(s);
    Ok((v, pos + 4 + n))
}

/// Reads the header from the start of the input.
#[verifier::rlimit(100)]
#[verifier::loop_isolation(false)]
pub fn read_header(b: &Vec<u8>) -> (r: Result<(Header, usize), Error>)
    ensures
        match r {
            Ok((h, p)) => parse_header(b@) == Ok::<_, Error>((h@, p as int)) && p <= b@.len(),
            Err(e) => parse_header(b@) == Err::<(HeaderV, int), Error>(e),
        },
{
    let len = b.len();
    if len < 18 {
        return Err(Error::MalformedHeader);
    }
    if b[0] != 0x66u8 || b[1] != 0x67u8 || b[2] != 0x62u8 || b[3] != 0x03u8 || b[4] != 0x66u8
        || b[5] != 0x67u8 || b[6] != 0x62u8 || b[7] != 0x00u8 {
        proof {
            assert(b@.subrange(0, 8)[0] == b@[0]);
            assert(b@.subrange(0, 8)[1] == b@[1]);
            assert(b@.subrange(0, 8)[2] == b@[2]);
            assert(b@.subrange(0, 8)[3] == b@[3]);
            assert(b@.subrange(0, 8)[4] == b@[4]);
            assert(b@.subrange(0, 8)[5] == b@[5]);
            assert(b@.subrange(0, 8)[6] == b@[6]);
            assert(b@.subrange(0, 8)[7] == b@[7]);
            assert(b@.subrange(0, 8) != file_magic());
        }
        return Err(Error::MalformedHeader);
    }
    proof {
        assert(b@.subrange(0, 8) =~= file_magic());
    }
    let geometry_type = b[8];
    let feature_count = read_u64(b, 9);
    proof {
        lemma_le_val_bound(b@, 9, 8);
    }
    let iflag = b[17];
    if iflag != 0 && iflag != 1 {
        return Err(Error::MalformedHeader);
    }
    let (index, p1): (Option<IndexMeta>, usize) = if iflag == 1 {
        if len < 28 {
            return Err(Error::MalformedHeader);
        }
        let branching = read_u16(b, 18);
        proof {
            lemma_le_val_bound(b@, 18, 2);
        }
        if branching < 2 {
            return Err(Error::MalformedHeader);
        }
        let num_nodes = read_u64(b, 20);
        proof {
            lemma_le_val_bound(b@, 20, 8);
        }
        (Some(IndexMeta { branching, num_nodes }), 28)
    } else {
        (None, 18)
    };
    if len - p1 < 4 {
        return Err(Error::MalformedHeader);
    }
    let crs_code = read_i32(b, p1);
    let nm = read_block(b, p1 + 4);
    let (name, p2) = match nm {
        Ok(v) => v,
        Err(e) => {
            return Err(e);
        },
    };
    if len - p2 < 1 {
        return Err(Error::MalformedHeader);
    }
    let dflag = b[p2];
    if dflag != 0 && dflag != 1 {
        return Err(Error::MalformedHeader);
    }
    let (description, p3): (Option<Vec<u8>>, usize) = if dflag == 0 {
        (None, p2 + 1)
    } else {
        match read_block(b, p2 + 1) {
            Ok((d, p)) => (Some(d), p),
            Err(e) => {
                return Err(e);
            },
        }
    };
    if len - p3 < 2 {
        return Err(Error::MalformedHeader);
    }
    let ncols = read_u16(b, p3);
    proof {
        lemma_le_val_bound(b@, p3 as int, 2);
    }
    let mut columns: Vec<Column> = Vec::new();
    let mut pos: usize = p3 + 2;
    let mut k: u16 = 0;
    while k < ncols
        invariant
            k <= ncols,
            pos <= b@.len(),
            parse_columns(b@, p3 + 2, ncols as nat) == (match parse_columns(
                b@,
                pos as int,
                (ncols - k) as nat,
            ) {
                Ok((rest, p)) => Ok::<_, Error>(
                    (columns@.map_values(|c: Column| c@) + rest, p),
                ),
                Err(e) => Err::<(Seq<ColumnV>, int), Error>(e),
            }),
        decreases ncols - k,
    {
        let ghost pos0 = pos as int;
        let ghost colsv = columns@.map_values(|c: Column| c@);
        let nm2 = read_block(b, pos);
        let (cname, pc) = match nm2 {
            Ok(v) => v,
            Err(e) => {
                return Err(e);
            },
        };
        if b.len() - pc < 2 {
            return Err(Error::MalformedHeader);
        }
        let ct = b[pc];
        let nf = b[pc + 1];
        if nf != 0 && nf != 1 {
            return Err(Error::MalformedHeader);
        }
        let c = Column { name: cname, col_type: ct, nullable: nf == 1 };
        proof {
            assert(ColumnV { name: c.name@, col_type: b@[pc as int], nullable: b@[pc as int
                + 1] == 1 } == c@);
        }
        columns.push(c);
        pos = pc + 2;
        k = k + 1;
        proof {
            assert(columns@.map_values(|c: Column| c@) =~= colsv + seq![columns@.last()@]);
            assert forall|rest: Seq<ColumnV>| true implies colsv + (seq![columns@.last()@]
                + rest) =~= (colsv + seq![columns@.last()@]) + rest by {}
        }
    }
    proof {
        assert(columns@.map_values(|c: Column| c@) + Seq::<ColumnV>::empty() =~= columns@.map_values(
            |c: Column| c@,
        ));
    }
    let h = Header { geometry_type, feature_count, index, crs_code, name, description, columns };
    Ok((h, pos))
}

/// Reads the declared number of index node records.
#[verifier::loop_isolation(false)]
fn read_nodes(b: &Vec<u8>, start: usize, count: u64) -> (r: Result<(Vec<IndexNode>, usize), Error>)
    requires
        start <= b@.len(),
    ensures
        match r {
            Ok((ns, p)) => parse_nodes(b@, start as int, count as nat) == Ok::<_, Error>(
                (ns@, p as int),
            ) && p <= b@.len(),
            Err(e) => parse_nodes(b@, start as int, count as nat) == Err::<
                (Seq<IndexNode>, int),
                Error,
            >(e),
        },
{
    let len = b.len();
    let mut nodes: Vec<IndexNode> = Vec::new();
    let mut pos: usize = start;
    let mut k: u64 = 0;
    while k < count
        invariant
            k <= count,
            pos <= b@.len(),
            parse_nodes(b@, start as int, count as nat) == (match parse_nodes(
                b@,
                pos as int,
                (count - k) as nat,
            ) {
                Ok((rest, p)) => Ok::<_, Error>((nodes@ + rest, p)),
                Err(e) => Err::<(Seq<IndexNode>, int), Error>(e),
            }),
        decreases count - k,
    {
        let ghost nodes0 = nodes@;
        if len - pos < 24 {
            return Err(Error::UnexpectedEof);
        }
        let min_x = read_i32(b, pos);
        let min_y = read_i32(b, pos + 4);
        let max_x = read_i32(b, pos + 8);
        let max_y = read_i32(b, pos + 12);
        let child = read_u64(b, pos + 16);
        proof {
            lemma_le_val_bound(b@, pos + 16, 8);
        }
        let nd = IndexNode { bbox: BBox { min_x, min_y, max_x, max_y }, child };
        nodes.push(nd);
        pos = pos + 24;
        k = k + 1;
        proof {
            assert(nodes@ =~= nodes0 + seq![nd]);
            assert forall|rest: Seq<IndexNode>| true implies nodes0 + (seq![nd] + rest) =~= (
            nodes0 + seq![nd]) + rest by {}
        }
    }
    proof {
        assert(nodes@ + Seq::<IndexNode>::empty() =~= nodes@);
    }
    Ok((nodes, pos))
}

/// Reads one feature frame, validating the payload's structure.
pub fn read_feature(b: &Vec<u8>, pos: usize) -> (r: Result<(Feature, usize), Error>)
    requires
        pos <= b@.len(),
    ensures
        match r {
            Ok((f, p)) => parse_feature(b@, pos as int) == Ok::<_, Error>((f@, p as int)) && p
                <= b@.len() && pos < p,
            Err(e) => parse_feature(b@, pos as int) == Err::<(Seq<u8>, int), Error>(e),
        },
{
    let len = b.len();
    if len - pos < 4 {
        return Err(Error::UnexpectedEof);
    }
    let n32 = read_u32(b, pos);
    let n = n32 as usize;
    if len - pos - 4 < n {
        return Err(Error::UnexpectedEof);
    }
    let s = vstd::slice::slice_subrange(b.as_slice(), pos + 4, pos + 4 + n);
    let v = vstd::slice::slice_to_vec(s);
    if v.len() < 4 {
        proof {
            assert(!wf_payload(b@.subrange(pos as int, pos + 4 + n as int).subrange(4, 4 + n as int)));
            assert(!wf_payload(b@.subrange(pos + 4, pos + 4 + n as int)));
        }
        return Err(Error::MalformedFeature);
    }
    let npts = read_u32(&v, 0);
    if (v.len() as u64) < 4u64 + 8u64 * (npts as u64) {
        proof {
            assert(payload_n_points(v@) == npts as nat);
            assert(!wf_payload(b@.subrange(pos + 4, pos + 4 + n as int)));
        }
        return Err(Error::MalformedFeature);
    }
    proof {
        assert(payload_n_points(v@) == npts as nat);
        assert(wf_payload(v@));
        assert(wf_payload(b@.subrange(pos + 4, pos + 4 + n as int)));
    }
    Ok((Feature { payload: v }, pos + 4 + n))
}

/// Reads a whole file; equal to the parse function on the file's bytes.
#[verifier::rlimit(100)]
#[verifier::loop_isolation(false)]
pub fn read_file(b: &Vec<u8>) -> (r: Result<FgbFile, Error>)
    ensures
        match r {
            Ok(f) => parse_file(b@) == Ok::<_, Error>(f@),
            Err(e) => parse_file(b@) == Err::<FileV, Error>(e),
        },
{
    let hr = read_header(b);
    let (header, p1) = match hr {
        Ok(v) => v,
        Err(e) => {
            return Err(e);
        },
    };
    let ncount: u64 = match header.index {
        Some(m) => m.num_nodes,
        None => 0,
    };
    let nr = read_nodes(b, p1, ncount);
    let (nodes, p2) = match nr {
        Ok(v) => v,
        Err(e) => {
            return Err(e);
        },
    };
    let len = b.len();
    let mut features: Vec<Feature> = Vec::new();
    let mut pos: usize = p2;
    if header.feature_count > 0 {
        let total = header.feature_count;
        let mut k: u64 = 0;
        while k < total
            invariant
                k <= total,
                pos <= b@.len(),
                parse_features_known(b@, p2 as int, total as nat) == (match parse_features_known(
                    b@,
                    pos as int,
                    (total - k) as nat,
                ) {
                    Ok((rest, p)) => Ok::<_, Error>(
                        (features@.map_values(|f: Feature| f@) + rest, p),
                    ),
                    Err(e) => Err::<(Seq<Seq<u8>>, int), Error>(e),
                }),
            decreases total - k,
        {
            let ghost fs0 = features@.map_values(|f: Feature| f@);
            let fr = read_feature(b, pos);
            let (f, p) = match fr {
                Ok(v) => v,
                Err(e) => {
                    return Err(e);
                },
            };
            features.push(f);
            pos = p;
            k = k + 1;
            proof {
                assert(features@.map_values(|f: Feature| f@) =~= fs0 + seq![features@.last()@]);
                assert forall|rest: Seq<Seq<u8>>| true implies fs0 + (seq![features@.last()@]
                    + rest) =~= (fs0 + seq![features@.last()@]) + rest by {}
            }
        }
        proof {
            assert(features@.map_values(|f: Feature| f@) + Seq::<Seq<u8>>::empty()
                =~= features@.map_values(|f: Feature| f@));
        }
        if pos != len {
            return Err(Error::MalformedFeature);
        }
    } else {
        while pos < len
            invariant
                pos <= b@.len(),
                len == b@.len(),
                parse_features_eof(b@, p2 as int) == (match parse_features_eof(b@, pos as int) {
                    Ok(rest) => Ok::<_, Error>(features@.map_values(|f: Feature| f@) + rest),
                    Err(e) => Err::<Seq<Seq<u8>>, Error>(e),
                }),
            decreases b@.len() - pos,
        {
            let ghost fs0 = features@.map_values(|f: Feature| f@);
            let fr = read_feature(b, pos);
            let (f, p) = match fr {
                Ok(v) => v,
                Err(e) => {
                    return Err(e);
                },
            };
            features.push(f);
            pos = p;
            proof {
                assert(features@.map_values(|f: Feature| f@) =~= fs0 + seq![features@.last()@]);
                assert forall|rest: Seq<Seq<u8>>| true implies fs0 + (seq![features@.last()@]
                    + rest) =~= (fs0 + seq![features@.last()@]) + rest by {}
            }
        }
        proof {
            assert(features@.map_values(|f: Feature| f@) + Seq::<Seq<u8>>::empty()
                =~= features@.map_values(|f: Feature| f@));
        }
    }
    Ok(FgbFile { header, nodes, features })
}


proof fn lemma_parse_columns_wf(b: Seq<u8>, pos: int, count: nat)
    requires
        0 <= pos,
    ensures
        parse_columns(b, pos, count) is Ok ==> {
            let (cs, p) = parse_columns(b, pos, count)->Ok_0;
            &&& cs.len() == count
            &&& forall|i: int| 0 <= i < cs.len() ==> (#[trigger] cs[i]).wf()
        },
    decreases count,
{
    if count > 0 {
        if parse_columns(b, pos, count) is Ok {
            let (name, p2) = parse_block(b, pos)->Ok_0;
            lemma_le_val_bound(b, pos, 4);
            assert(name.len() < 0x1_0000_0000);
            lemma_parse_columns_wf(b, p2 + 2, (count - 1) as nat);
            let c = ColumnV { name: name, col_type: b[p2], nullable: b[p2 + 1] == 1 };
            let (rest, p3) = parse_columns(b, p2 + 2, (count - 1) as nat)->Ok_0;
            let cs = parse_columns(b, pos, count)->Ok_0.0;
            assert(cs == seq![c] + rest);
            assert forall|i: int| 0 <= i < cs.len() implies (#[trigger] cs[i]).wf() by {
                if i == 0 {
                    assert(cs[i] == c);
                } else {
                    assert(cs[i] == rest[i - 1]);
                }
            }
        }
    }
}

proof fn lemma_parse_nodes_count(b: Seq<u8>, pos: int, count: nat)
    ensures
        parse_nodes(b, pos, count) is Ok ==> parse_nodes(b, pos, count)->Ok_0.0.len() == count,
    decreases count,
{
    if count > 0 && pos + 24 <= b.len() {
        lemma_parse_nodes_count(b, pos + 24, (count - 1) as nat);
    }
}

proof fn lemma_parse_features_known_wf(b: Seq<u8>, pos: int, count: nat)
    ensures
        parse_features_known(b, pos, count) is Ok ==> {
            let (fs, p) = parse_features_known(b, pos, count)->Ok_0;
            &&& fs.len() == count
            &&& forall|i: int| 0 <= i < fs.len() ==> wf_payload(#[trigger] fs[i])
        },
    decreases count,
{
    if count > 0 {
        if parse_features_known(b, pos, count) is Ok {
            let (p1, q1) = parse_feature(b, pos)->Ok_0;
            lemma_parse_features_known_wf(b, q1, (count - 1) as nat);
            let (rest, q2) = parse_features_known(b, q1, (count - 1) as nat)->Ok_0;
            let fs = parse_features_known(b, pos, count)->Ok_0.0;
            assert(fs == seq![p1] + rest);
            assert forall|i: int| 0 <= i < fs.len() implies wf_payload(#[trigger] fs[i]) by {
                if i == 0 {
                    assert(fs[i] == p1);
                } else {
                    assert(fs[i] == rest[i - 1]);
                }
            }
        }
    }
}

proof fn lemma_parse_features_eof_wf(b: Seq<u8>, pos: int)
    ensures
        parse_features_eof(b, pos) is Ok ==> forall|i: int|
            0 <= i < parse_features_eof(b, pos)->Ok_0.len() ==> wf_payload(
                #[trigger] parse_features_eof(b, pos)->Ok_0[i],
            ),
    decreases b.len() - pos,
{
    if pos < b.len() && pos + 4 <= b.len() {
        let n = le_val(b, pos, 4) as int;
        if pos + 4 + n <= b.len() {
            let p = b.subrange(pos + 4, pos + 4 + n);
            lemma_parse_features_eof_wf(b, pos + 4 + n);
            if wf_payload(p) && parse_features_eof(b, pos + 4 + n) is Ok {
                let rest = parse_features_eof(b, pos + 4 + n)->Ok_0;
                let fs = parse_features_eof(b, pos)->Ok_0;
                assert(fs == seq![p] + rest);
                assert forall|i: int| 0 <= i < fs.len() implies wf_payload(#[trigger] fs[i]) by {
                    if i == 0 {
                        assert(fs[i] == p);
                    } else {
                        assert(fs[i] == rest[i - 1]);
                    }
                }
            }
        }
    }
}

/// Whatever the parser accepts is a well-formed file value: every length
/// fits its width, node count and feature count match the header, and
/// every payload is structurally valid.
pub proof fn lemma_parse_file_wf(b: Seq<u8>)
    ensures
        parse_file(b) is Ok ==> parse_file(b)->Ok_0.wf(),
{
    if parse_file(b) is Ok {
        let (h, pos) = parse_header(b)->Ok_0;
        lemma_parse_header_wf(b);
        let ncount: nat = match h.index {
            Some(m) => m.num_nodes as nat,
            None => 0,
        };
        lemma_parse_nodes_count(b, pos, ncount);
        let (nodes, p2) = parse_nodes(b, pos, ncount)->Ok_0;
        if h.feature_count > 0 {
            lemma_parse_features_known_wf(b, p2, h.feature_count as nat);
        } else {
            lemma_parse_features_eof_wf(b, p2);
        }
    }
}

/// Any header the parser accepts is well formed.
pub proof fn lemma_parse_header_wf(b: Seq<u8>)
    ensures
        parse_header(b) is Ok ==> parse_header(b)->Ok_0.0.wf(),
{
    if parse_header(b) is Ok {
        let iflag = b[17];
        let p1: int = if iflag == 1 {
            28
        } else {
            18
        };
        lemma_le_val_bound(b, 18, 2);
        let (name, p2) = parse_block(b, p1 + 4)->Ok_0;
        lemma_le_val_bound(b, p1 + 4, 4);
        if b[p2] == 0 {
            lemma_le_val_bound(b, p2 + 1, 2);
            lemma_parse_columns_wf(b, p2 + 1 + 2, le_val(b, p2 + 1, 2));
        } else {
            let (d, p3) = parse_block(b, p2 + 1)->Ok_0;
            lemma_le_val_bound(b, p2 + 1, 4);
            lemma_le_val_bound(b, p3, 2);
            lemma_parse_columns_wf(b, p3 + 2, le_val(b, p3, 2));
        }
    }
}

} // verus!
