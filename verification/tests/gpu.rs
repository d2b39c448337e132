use benostreamdb::index::gpu::{
    dense_kernel, dense_metric_code, pack_words, packed_kernel, packed_metric_code, plan_distances,
    stays_on_cpu, workgroups, BackendSupport, ComputeBackend, ComputeContext, DeviceError,
    DistancePlan, SizeMismatch, VectorMetric,
};

const NONE: BackendSupport = BackendSupport {
    cuda: false,
    mps: false,
    rocm: false,
    intel: false,
};

#[test]
fn test_from_device_str_cpu() {
    let ctx = ComputeContext::from_device_str("cpu", None, &NONE).unwrap();
    assert_eq!(ctx.backend, ComputeBackend::Cpu);
    assert_eq!(ctx.device_id, -1);
    assert_eq!(ctx.backend_name(), "cpu");
    assert!(!ctx.is_gpu());
    assert!(ctx.is_available(&NONE));
}

#[test]
fn test_from_device_str_auto() {
    let ctx = ComputeContext::from_device_str("auto", None, &NONE).unwrap();
    assert!(!ctx.backend_name().is_empty());
}

#[test]
fn test_from_device_str_invalid() {
    assert!(ComputeContext::from_device_str("nonexistent_device", None, &NONE).is_err());
}

#[test]
fn test_backend_name_and_is_gpu() {
    let cpu = ComputeContext {
        backend: ComputeBackend::Cpu,
        device_id: -1,
    };
    assert_eq!(cpu.backend_name(), "cpu");
    assert!(!cpu.is_gpu());
}

#[test]
fn devices_are_named_with_their_number() {
    let support = BackendSupport { cuda: true, ..NONE };
    let ctx = ComputeContext::from_device_str("cuda:1", None, &support).unwrap();
    assert_eq!(ctx.backend, ComputeBackend::Cuda);
    assert_eq!(ctx.device_id, 1);
    assert!(ctx.is_gpu());
    assert!(matches!(
        ComputeContext::from_device_str("cuda:1", None, &NONE),
        Err(DeviceError::Unavailable(ComputeBackend::Cuda))
    ));
    assert_eq!(
        ComputeContext::auto_detect(None, &support).backend,
        ComputeBackend::Cuda
    );
}

#[test]
fn metrics_have_codes() {
    assert_eq!(dense_metric_code(VectorMetric::L2), 0);
    assert!(packed_metric_code(VectorMetric::Hamming).is_some());
    assert!(packed_metric_code(VectorMetric::Jaccard).is_some());
    assert_eq!(packed_metric_code(VectorMetric::L2), None);
}

#[test]
fn bytes_are_packed_into_words() {
    assert_eq!(pack_words(&[1, 2, 3, 4], 4), vec![0x0403_0201]);
    assert_eq!(
        pack_words(&[1, 2, 3, 4, 5, 6], 3),
        vec![0x0003_0201, 0x0006_0504]
    );
}

#[test]
fn groups_cover_all_vectors() {
    assert_eq!(workgroups(1), 1);
    assert_eq!(workgroups(64), 1);
    assert_eq!(workgroups(65), 2);
}

#[test]
fn few_vectors_stay_on_the_processor() {
    let gpu = ComputeContext {
        backend: ComputeBackend::Cuda,
        device_id: 0,
    };
    assert!(stays_on_cpu(4, 2, &gpu));
    assert!(!stays_on_cpu(40_000_000, 2, &gpu));
    assert_eq!(
        plan_distances(6, 2, &gpu),
        Ok(DistancePlan {
            vectors: 3,
            on_cpu: true
        })
    );
    assert_eq!(
        plan_distances(0, 0, &gpu).map(|plan| plan.vectors),
        Ok(0)
    );
    assert_eq!(
        plan_distances(7, 2, &gpu),
        Err(SizeMismatch { len: 7, dim: 2 })
    );
}

#[test]
fn kernels_have_names() {
    let (module, kernel) = dense_kernel(VectorMetric::Cosine);
    assert_eq!((module, kernel.as_str()), ("cosine_distance", "cosine_distance_kernel"));
    assert_eq!(
        packed_kernel(VectorMetric::Hamming),
        Some(("hamming_packed", "hamming_packed_kernel"))
    );
    assert_eq!(packed_kernel(VectorMetric::L2), None);
    let cuda = BackendSupport { cuda: true, ..NONE };
    let ctx = ComputeContext::from_backend(ComputeBackend::Cuda, &cuda).unwrap();
    assert_eq!(ctx.device_id, 0);
    assert!(matches!(
        ComputeContext::from_backend(ComputeBackend::Cuda, &NONE),
        Err(DeviceError::Unavailable(ComputeBackend::Cuda))
    ));
}
