use benostreamdb::index::arrow_ipc::{
    graph_rows, ArrowType, GraphPoint, PointId, SparseVector,
};

fn bits(values: &[f32]) -> Vec<u32> {
    values.iter().map(|v| v.to_bits()).collect()
}

fn sv(indices: Vec<u32>, values: Vec<f32>, dim: usize) -> SparseVector {
    SparseVector {
        indices,
        values: bits(&values),
        dim,
    }
}

#[test]
fn f32_round_trip() {
    let v = bits(&[1.0f32, 2.5, -3.0]);
    let bytes = <u32 as ArrowType>::to_bytes(&v);
    assert_eq!(<u32 as ArrowType>::from_bytes(&bytes), v);
}

#[test]
fn numbers_are_little_endian() {
    assert_eq!(
        <u32 as ArrowType>::to_bytes(&bits(&[1.0])),
        1.0f32.to_le_bytes().to_vec()
    );
}

#[test]
fn bytes_are_kept() {
    let bytes = <u8 as ArrowType>::to_bytes(&[1, 2, 255]);
    assert_eq!(bytes, vec![1, 2, 255]);
    assert_eq!(<u8 as ArrowType>::from_bytes(&bytes), vec![1, 2, 255]);
}

#[test]
fn sparse_vector_round_trip() {
    let original = vec![
        sv(vec![0, 5, 10], vec![1.0, 2.0, 3.0], 100),
        sv(vec![], vec![], 50),
        sv(vec![1], vec![-0.5], 7),
    ];
    let bytes = <SparseVector as ArrowType>::to_bytes(&original);
    let decoded = <SparseVector as ArrowType>::from_bytes(&bytes);

    assert_eq!(decoded.len(), original.len());
    for (a, b) in original.iter().zip(decoded.iter()) {
        assert_eq!(a.dim, b.dim);
        assert_eq!(a.indices, b.indices);
        assert_eq!(a.values, b.values);
    }
}

#[test]
fn sparse_vector_truncated_blob_does_not_panic() {
    let original = vec![sv(vec![0, 1], vec![1.0, 2.0], 10)];
    let bytes = <SparseVector as ArrowType>::to_bytes(&original);
    let decoded = <SparseVector as ArrowType>::from_bytes(&bytes[..bytes.len() - 3]);
    assert!(decoded.iter().all(|v| v.indices.len() < 2));
}

fn id(layer: u8, rank: i32) -> PointId {
    PointId { layer, rank }
}

#[test]
fn an_empty_graph_has_no_rows() {
    let points: Vec<GraphPoint> = Vec::new();
    assert_eq!(graph_rows(&points).unwrap().len(), 0);
}

#[test]
fn point_ids_are_compared_by_layer_and_rank() {
    assert_eq!(id(1, 2), id(1, 2));
    assert_ne!(id(1, 2), id(2, 1));
}
