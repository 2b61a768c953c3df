use fgb_reindex::codec::write_file;
use fgb_reindex::decode::read_file;
use fgb_reindex::geom::BBox;
use fgb_reindex::index::{build_index, sort_entries, IndexEntry};
use fgb_reindex::key::sort_key;
use fgb_reindex::model::{Feature, FgbFile, Header, IndexMeta};
use fgb_reindex::pipeline::{reindex, STAMPED_CRS};
use fgb_reindex::summary::summarize;
use fgb_reindex::Error;

fn push_u32(out: &mut Vec<u8>, v: u32) {
    out.push((v % 0x100) as u8);
    out.push(((v / 0x100) % 0x100) as u8);
    out.push(((v / 0x1_0000) % 0x100) as u8);
    out.push(((v / 0x100_0000) % 0x100) as u8);
}

fn push_i32_grid(out: &mut Vec<u8>, v: i32) {
    let g = ((v as i64) + 0x8000_0000i64) as u32;
    push_u32(out, g);
}

fn point_payload(points: &[(i32, i32)]) -> Vec<u8> {
    let mut p = Vec::new();
    push_u32(&mut p, points.len() as u32);
    for &(x, y) in points {
        push_i32_grid(&mut p, x);
        push_i32_grid(&mut p, y);
    }
    p
}

fn input_file(points_per_feature: &[Vec<(i32, i32)>], crs: i32) -> Vec<u8> {
    let features: Vec<Feature> = points_per_feature
        .iter()
        .map(|pts| Feature { payload: point_payload(pts) })
        .collect();
    let f = FgbFile {
        header: Header {
            geometry_type: 1,
            feature_count: features.len() as u64,
            index: None,
            crs_code: crs,
            name: b"input".to_vec(),
            description: None,
            columns: Vec::new(),
        },
        nodes: Vec::new(),
        features,
    };
    write_file(&f)
}

fn payload_multiset(mut v: Vec<Vec<u8>>) -> Vec<Vec<u8>> {
    v.sort();
    v
}

#[test]
fn three_points_get_an_index() {
    let input = input_file(
        &[vec![(0, 0)], vec![(1, 1)], vec![(2, 2)]],
        9999,
    );
    let out = reindex(&input, 16, b"pts".to_vec(), None).unwrap();
    let m = read_file(&out).unwrap();
    assert_eq!(m.header.feature_count, 3);
    assert_eq!(m.header.crs_code, STAMPED_CRS);
    assert_eq!(m.header.geometry_type, 1);
    let meta = m.header.index.expect("output must declare an index");
    assert_eq!(meta.branching, 16);
    assert_eq!(meta.num_nodes, 1);
    assert_eq!(m.nodes.len(), 1);
    let root = &m.nodes[0];
    assert_eq!(root.bbox, BBox { min_x: 0, min_y: 0, max_x: 2, max_y: 2 });
    assert_eq!(root.child, 0);
    let got = payload_multiset(m.features.iter().map(|f| f.payload.clone()).collect());
    let want = payload_multiset(vec![
        point_payload(&[(0, 0)]),
        point_payload(&[(1, 1)]),
        point_payload(&[(2, 2)]),
    ]);
    assert_eq!(got, want);
}

#[test]
fn empty_dataset_gives_valid_indexless_output() {
    let input = input_file(&[], 4326);
    let out = reindex(&input, 16, b"empty".to_vec(), None).unwrap();
    let m = read_file(&out).unwrap();
    assert_eq!(m.header.feature_count, 0);
    assert!(m.header.index.is_none());
    assert!(m.features.is_empty());
    assert_eq!(m.header.crs_code, STAMPED_CRS);
}

#[test]
fn truncated_input_fails_with_unexpected_eof() {
    let mut input = input_file(&[vec![(5, 5)]], 4326);
    input.pop();
    let r = reindex(&input, 16, b"t".to_vec(), None);
    assert_eq!(r.unwrap_err(), Error::UnexpectedEof);
}

#[test]
fn length_prefix_past_eof_fails_with_unexpected_eof() {
    let mut input = input_file(&[], 4326);
    // a frame whose length prefix points past the end of the file
    push_u32(&mut input, 100);
    input.push(1);
    let r = reindex(&input, 16, b"t".to_vec(), None);
    assert_eq!(r.unwrap_err(), Error::UnexpectedEof);
}

#[test]
fn bad_magic_fails_with_malformed_header() {
    let mut input = input_file(&[vec![(0, 0)]], 4326);
    input[0] = 0x00;
    let r = reindex(&input, 16, b"t".to_vec(), None);
    assert_eq!(r.unwrap_err(), Error::MalformedHeader);
}

#[test]
fn short_payload_fails_with_malformed_feature() {
    let mut input = input_file(&[], 4326);
    // one frame of four bytes claiming nine points
    push_u32(&mut input, 4);
    push_u32(&mut input, 9);
    let r = reindex(&input, 16, b"t".to_vec(), None);
    assert_eq!(r.unwrap_err(), Error::MalformedFeature);
}

#[test]
fn branching_below_two_is_rejected() {
    let input = input_file(&[vec![(0, 0)]], 4326);
    let r = reindex(&input, 1, b"t".to_vec(), None);
    assert_eq!(r.unwrap_err(), Error::InvalidBranchingFactor);
}

#[test]
fn reindex_is_deterministic() {
    let input = input_file(&[vec![(3, 4), (7, 1)], vec![(2, 2)]], 1234);
    let a = reindex(&input, 4, b"d".to_vec(), Some(b"desc".to_vec())).unwrap();
    let b = reindex(&input, 4, b"d".to_vec(), Some(b"desc".to_vec())).unwrap();
    assert_eq!(a, b);
}

#[test]
fn crs_is_stamped_regardless_of_input() {
    for crs in [0, -1, 4326, 3857, 123456] {
        let input = input_file(&[vec![(1, 2)]], crs);
        let out = reindex(&input, 8, b"c".to_vec(), None).unwrap();
        let m = read_file(&out).unwrap();
        assert_eq!(m.header.crs_code, 4326);
    }
}

#[test]
fn reindexing_an_indexed_output_keeps_the_features() {
    let input = input_file(
        &[vec![(10, 10)], vec![(-5, 3)], vec![(0, 0), (20, 20)], vec![(7, -9)]],
        4326,
    );
    let out1 = reindex(&input, 2, b"i".to_vec(), None).unwrap();
    let out2 = reindex(&out1, 2, b"i".to_vec(), None).unwrap();
    let m1 = read_file(&out1).unwrap();
    let m2 = read_file(&out2).unwrap();
    assert_eq!(m1.header.feature_count, 4);
    assert_eq!(m2.header.feature_count, 4);
    assert!(m2.header.index.is_some());
    let a = payload_multiset(m1.features.iter().map(|f| f.payload.clone()).collect());
    let b = payload_multiset(m2.features.iter().map(|f| f.payload.clone()).collect());
    assert_eq!(a, b);
}

#[test]
fn codec_round_trips_a_file() {
    let input = input_file(&[vec![(1, 1)], vec![(2, 3)]], 42);
    let m = read_file(&input).unwrap();
    assert_eq!(write_file(&m), input);
    assert_eq!(m.header.name, b"input".to_vec());
    assert_eq!(m.header.feature_count, 2);
    assert_eq!(m.header.crs_code, 42);
}

#[test]
fn summarize_covers_all_points() {
    let f = Feature { payload: point_payload(&[(3, -2), (-7, 9), (0, 0)]) };
    let b = summarize(&f);
    assert_eq!(b, BBox { min_x: -7, min_y: -2, max_x: 3, max_y: 9 });
}

#[test]
fn summarize_of_empty_geometry_is_origin_box() {
    let f = Feature { payload: point_payload(&[]) };
    let b = summarize(&f);
    assert_eq!(b, BBox { min_x: 0, min_y: 0, max_x: 0, max_y: 0 });
}

#[test]
fn sort_is_by_key_then_ordinal() {
    let b0 = BBox { min_x: 0, min_y: 0, max_x: 0, max_y: 0 };
    let b9 = BBox { min_x: 900, min_y: 900, max_x: 900, max_y: 900 };
    let k0 = sort_key(&b0);
    let k9 = sort_key(&b9);
    assert!(k0 != k9);
    let entries = vec![
        IndexEntry { key: k9, ordinal: 0, bbox: b9 },
        IndexEntry { key: k0, ordinal: 2, bbox: b0 },
        IndexEntry { key: k0, ordinal: 1, bbox: b0 },
    ];
    let sorted = sort_entries(&entries);
    assert_eq!(sorted[0].ordinal, 1);
    assert_eq!(sorted[1].ordinal, 2);
    assert_eq!(sorted[2].ordinal, 0);
    let keys: Vec<u64> = sorted.iter().map(|e| e.key).collect();
    let mut ks = keys.clone();
    ks.sort();
    assert_eq!(keys, ks);
}

#[test]
fn builder_rejects_empty_and_bad_branching() {
    let b = BBox { min_x: 0, min_y: 0, max_x: 0, max_y: 0 };
    let one = vec![IndexEntry { key: 0, ordinal: 0, bbox: b }];
    assert_eq!(build_index(&one, 1).unwrap_err(), Error::InvalidBranchingFactor);
    let none: Vec<IndexEntry> = Vec::new();
    assert_eq!(build_index(&none, 2).unwrap_err(), Error::EmptyDataset);
}

#[test]
fn builder_levels_shrink_to_a_root() {
    // five entries, branching two: three leaves, two mid nodes, one root
    let mk = |v: i32, i: u64| IndexEntry {
        key: sort_key(&BBox { min_x: v, min_y: v, max_x: v, max_y: v }),
        ordinal: i,
        bbox: BBox { min_x: v, min_y: v, max_x: v, max_y: v },
    };
    let entries = vec![mk(1, 0), mk(2, 1), mk(3, 2), mk(4, 3), mk(5, 4)];
    let (sorted, nodes) = build_index(&entries, 2).unwrap();
    assert_eq!(sorted.len(), 5);
    assert_eq!(nodes.len(), 6);
    // the first node is the root: it covers everything
    let root = &nodes[0];
    assert!(root.bbox.min_x <= 1 && root.bbox.max_x >= 5);
}
