use chunk_stream::asset::{BindGroupType, ChunkBuilder, ModelAsset, ModelReference};
use chunk_stream::key::{key_in_radius, world_to_chunk_space, MeshId};
use chunk_stream::pool::{Pool, PoolError};

#[test]
fn world_to_chunk_space_truncates_toward_zero() {
    assert_eq!(world_to_chunk_space(0, 0), MeshId(0, 0));
    assert_eq!(world_to_chunk_space(31, 31), MeshId(0, 0));
    assert_eq!(world_to_chunk_space(32, 33), MeshId(1, 1));
    assert_eq!(world_to_chunk_space(63, 64), MeshId(1, 2));
    assert_eq!(world_to_chunk_space(-1, -31), MeshId(0, 0));
    assert_eq!(world_to_chunk_space(-32, -33), MeshId(-1, -1));
    assert_eq!(world_to_chunk_space(i32::MAX, i32::MIN), MeshId(67108863, -67108864));
}

#[test]
fn squared_distance_values() {
    assert_eq!(MeshId(0, 1).squared_distance(MeshId(0, 0)), 1);
    assert_eq!(MeshId(2, 0).squared_distance(MeshId(0, 0)), 4);
    assert_eq!(MeshId(-3, 4).squared_distance(MeshId(0, 0)), 25);
    assert_eq!(MeshId(5, 5).squared_distance(MeshId(2, 1)), 25);
    assert_eq!(
        MeshId(i32::MAX, i32::MAX).squared_distance(MeshId(i32::MIN, i32::MIN)),
        2 * (u32::MAX as i128) * (u32::MAX as i128)
    );
}

#[test]
fn radius_test_is_inclusive() {
    let c = MeshId(0, 0);
    assert!(key_in_radius(MeshId(3, 4), c, 5));
    assert!(!key_in_radius(MeshId(3, 5), c, 5));
    assert!(key_in_radius(MeshId(0, 0), c, 0));
    assert!(!key_in_radius(MeshId(0, 1), c, 0));
    assert!(key_in_radius(MeshId(-2, 0), MeshId(-1, 0), 1));
}

#[test]
fn pool_is_first_in_first_out() {
    let mut p: Pool<u32> = Pool::new(1);
    assert_eq!(p.len(), 0);
    assert_eq!(p.dispatch(10), Ok(()));
    assert_eq!(p.dispatch(11), Ok(()));
    assert_eq!(p.dispatch(12), Ok(()));
    assert_eq!(p.len(), 3);
    assert_eq!(p.take(), Some(10));
    assert_eq!(p.take(), Some(11));
    assert_eq!(p.take(), Some(12));
    assert_eq!(p.take(), None);
}

#[test]
fn pool_without_workers_refuses_dispatch() {
    let mut p: Pool<u32> = Pool::new(0);
    assert_eq!(p.dispatch(1), Err(PoolError::PoolClosed));
    assert_eq!(p.len(), 0);
}

#[test]
fn pool_closes_when_the_last_worker_dies() {
    let mut p: Pool<u32> = Pool::new(2);
    assert_eq!(p.workers_alive(), 2);
    assert_eq!(p.dispatch(1), Ok(()));
    p.worker_exit();
    assert_eq!(p.workers_alive(), 1);
    assert_eq!(p.dispatch(2), Ok(()));
    p.worker_exit();
    assert_eq!(p.workers_alive(), 0);
    assert_eq!(p.dispatch(3), Err(PoolError::PoolClosed));
    // already queued jobs can still be drained
    assert_eq!(p.take(), Some(1));
    assert_eq!(p.take(), Some(2));
    assert_eq!(p.take(), None);
}

#[test]
fn chunk_builder_hands_out_consecutive_indices() {
    let mut b = ChunkBuilder::new();
    assert_eq!(b.idx, 1);
    assert_eq!(b.next_index(), 1);
    assert_eq!(b.next_index(), 2);
    assert_eq!(b.idx, 3);
}

#[test]
fn asset_identifiers_compare_by_value() {
    let a = ModelAsset::DynamicMesh(MeshId(1, 2));
    let b = ModelAsset::DynamicMesh(MeshId(1, 2));
    assert_eq!(a, b);
    assert_ne!(a, ModelAsset::Cube);
    assert_ne!(ModelAsset::Dynamic(1), ModelAsset::Dynamic(2));
    let r = ModelReference { asset_reference: ModelAsset::Room };
    assert_eq!(r.asset_reference, ModelAsset::Room);
    assert_eq!(BindGroupType::Material, BindGroupType::Material);
}
