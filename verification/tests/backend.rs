use fastnoise::backend::make_cpu_backend;
use fastnoise::model::FastNoiseKernel;

#[test]
fn backend_knows_every_kernel() {
    let backend = make_cpu_backend();
    let kinds: Vec<u32> = backend
        .registrations
        .iter()
        .map(|registration| registration.kind_id)
        .collect();
    let kernels = [
        FastNoiseKernel::InitGrid2d,
        FastNoiseKernel::InitGrid3d,
        FastNoiseKernel::Warp2d,
        FastNoiseKernel::Warp3d,
        FastNoiseKernel::Sample2d,
        FastNoiseKernel::Sample3d,
        FastNoiseKernel::Combine,
    ];
    let wanted: Vec<u32> = kernels.iter().map(|kernel| kernel.kind()).collect();
    assert_eq!(kinds, wanted);
}

#[test]
fn kinds_and_kernels_determine_each_other() {
    for kind in 0..7 {
        assert_eq!(FastNoiseKernel::from_kind(kind).unwrap().kind(), kind);
    }
    assert_eq!(FastNoiseKernel::from_kind(7), None);
    assert_eq!(FastNoiseKernel::from_kind(u32::MAX), None);
}
