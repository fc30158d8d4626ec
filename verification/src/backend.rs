//! The backend: which kernels it knows.

use vstd::prelude::*;

use crate::kernel::FastNoiseKernelFactory;
use crate::model::{FastNoiseKernel, kernel_of, kind_of};

verus! {

/// A factory and the kind of kernels that it is asked for.
#[derive(Clone, Copy, Debug, PartialEq, Eq, Structural)]
pub struct Registration {
    pub kind_id: u32,
    pub factory: FastNoiseKernelFactory,
}

/// The factories that plans can be run with.
#[derive(Debug, PartialEq, Eq)]
pub struct FastNoiseCpuBackend {
    pub registrations: Vec<Registration>,
}

/// The registration of a kernel.
pub open spec fn registration_of(kernel: FastNoiseKernel) -> Registration {
    Registration { kind_id: kind_of(kernel), factory: FastNoiseKernelFactory }
}

/// Some registration is for the given kind.
pub open spec fn knows(registrations: Seq<Registration>, kind_id: u32) -> bool {
    exists|i: int| 0 <= i < registrations.len() && (#[trigger] registrations[i]).kind_id == kind_id
}

impl FastNoiseCpuBackend {
    pub fn new() -> (backend: Self)
        ensures
            backend.registrations@.len() == 0,
    {
        FastNoiseCpuBackend { registrations: Vec::new() }
    }

    /// Registers a factory for a kind of kernels.
    pub fn register_factory(&mut self, kind_id: u32, factory: FastNoiseKernelFactory)
        ensures
            final(self).registrations@ == old(self).registrations@.push(
                Registration { kind_id, factory },
            ),
    {
        self.registrations.push(Registration { kind_id, factory });
    }
}

/// A backend for all kernels that plans are made of.
pub fn make_cpu_backend() -> (backend: FastNoiseCpuBackend)
    ensures
        backend.registrations@ == seq![
            registration_of(FastNoiseKernel::InitGrid2d),
            registration_of(FastNoiseKernel::InitGrid3d),
            registration_of(FastNoiseKernel::Warp2d),
            registration_of(FastNoiseKernel::Warp3d),
            registration_of(FastNoiseKernel::Sample2d),
            registration_of(FastNoiseKernel::Sample3d),
            registration_of(FastNoiseKernel::Combine),
        ],
        forall|kind_id: u32|
            knows(backend.registrations@, kind_id) <==> (#[trigger] kernel_of(kind_id)) is Some,
{
    let factory = FastNoiseKernelFactory;
    let mut backend = FastNoiseCpuBackend::new();
    backend.register_factory(FastNoiseKernel::InitGrid2d.kind(), factory);
    backend.register_factory(FastNoiseKernel::InitGrid3d.kind(), factory);
    backend.register_factory(FastNoiseKernel::Warp2d.kind(), factory);
    backend.register_factory(FastNoiseKernel::Warp3d.kind(), factory);
    backend.register_factory(FastNoiseKernel::Sample2d.kind(), factory);
    backend.register_factory(FastNoiseKernel::Sample3d.kind(), factory);
    backend.register_factory(FastNoiseKernel::Combine.kind(), factory);
    assert forall|kind_id: u32|
        knows(backend.registrations@, kind_id) <==> (#[trigger] kernel_of(kind_id)) is Some by {
        let list = backend.registrations@;
        assert(list.len() == 7);
        assert(forall|i: int| 0 <= i < 7 ==> (#[trigger] list[i]).kind_id == i);
        if kernel_of(kind_id) is Some {
            assert(list[kind_id as int].kind_id == kind_id);
        }
    }
    backend
}

} // verus!
