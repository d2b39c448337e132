//! Where distances are computed: the choice of a device, when a batch is worth
//! sending there, and the form that packed vectors are sent in.

use vstd::prelude::*;
use vstd::string::*;

use crate::text;

verus! {

/// How far apart vectors are.
#[derive(Debug, Clone, Copy, PartialEq, Eq, Structural)]
pub enum VectorMetric {
    L2,
    Cosine,
    InnerProduct,
    L1,
    Hamming,
    Jaccard,
}

/// What computes distances.
#[derive(Debug, Clone, Copy, PartialEq, Eq, Structural)]
pub enum ComputeBackend {
    Cpu,
    Cuda,
    Rocm,
    Mps,
    Intel,
}

impl Default for ComputeBackend {
    fn default() -> (r: Self)
        ensures
            r == ComputeBackend::Cpu,
    {
        ComputeBackend::Cpu
    }
}

/// Which backends can be opened on this machine.
#[derive(Debug, Clone, Copy, PartialEq, Eq, Structural)]
pub struct BackendSupport {
    pub cuda: bool,
    pub mps: bool,
    pub rocm: bool,
    pub intel: bool,
}

impl BackendSupport {
    /// The backend can be opened. The processor itself always can.
    pub open spec fn has(self, backend: ComputeBackend) -> bool {
        match backend {
            ComputeBackend::Cpu => true,
            ComputeBackend::Cuda => self.cuda,
            ComputeBackend::Rocm => self.rocm,
            ComputeBackend::Mps => self.mps,
            ComputeBackend::Intel => self.intel,
        }
    }

    /// Whether a backend can be opened.
    pub fn supports(&self, backend: ComputeBackend) -> (r: bool)
        ensures
            r == self.has(backend),
    {
        match backend {
            ComputeBackend::Cpu => true,
            ComputeBackend::Cuda => self.cuda,
            ComputeBackend::Rocm => self.rocm,
            ComputeBackend::Mps => self.mps,
            ComputeBackend::Intel => self.intel,
        }
    }
}

/// Why a device cannot be used.
#[derive(Debug)]
pub enum DeviceError {
    /// The name is none of a device.
    Unsupported(String),
    /// The backend cannot be opened here.
    Unavailable(ComputeBackend),
}

impl DeviceError {
    /// What is reported.
    pub open spec fn spec_message(self) -> Seq<char> {
        match self {
            DeviceError::Unsupported(device) => "Unsupported device: "@ + device@,
            DeviceError::Unavailable(backend) => match backend {
                ComputeBackend::Cpu => "CPU not enabled"@,
                ComputeBackend::Cuda => "CUDA not enabled (enable the 'cuda' feature)"@,
                ComputeBackend::Mps => "MPS not enabled"@,
                ComputeBackend::Rocm =>
                    "ROCm not enabled on this platform (enable the 'wgpu' feature)"@,
                ComputeBackend::Intel =>
                    "Intel not enabled on this platform (enable the 'wgpu' feature)"@,
            },
        }
    }

    /// What is reported.
    pub fn message(&self) -> (r: String)
        ensures
            r@ == self.spec_message(),
    {
        match self {
            DeviceError::Unsupported(device) => {
                let mut m: String = "Unsupported device: ".to_owned();
                m.append(device.as_str());
                m
            },
            DeviceError::Unavailable(backend) => match backend {
                ComputeBackend::Cpu => "CPU not enabled".to_owned(),
                ComputeBackend::Cuda => "CUDA not enabled (enable the 'cuda' feature)".to_owned(),
                ComputeBackend::Mps => "MPS not enabled".to_owned(),
                ComputeBackend::Rocm =>
                    "ROCm not enabled on this platform (enable the 'wgpu' feature)".to_owned(),
                ComputeBackend::Intel =>
                    "Intel not enabled on this platform (enable the 'wgpu' feature)".to_owned(),
            },
        }
    }
}

// ---------------------------------------------------------------------------
// Choosing a device
// ---------------------------------------------------------------------------

/// What the name of a device asks for.
#[derive(Debug, Clone, Copy, PartialEq, Eq, Structural)]
pub enum DeviceChoice {
    /// The best device there is.
    Detect,
    /// A device of a backend.
    Open { backend: ComputeBackend, device_id: usize },
}

/// The number of a device behind a prefix: zero where it is none.
pub open spec fn device_number(name: Seq<char>, prefix: Seq<char>) -> usize {
    match text::number(name.skip(prefix.len() as int), usize::MAX as nat) {
        Some(n) => n as usize,
        None => 0,
    }
}

/// What the name of a device asks for, whatever its case and the space around
/// it.
pub open spec fn device_choice(device: Seq<char>) -> Option<DeviceChoice> {
    let name = text::trimmed(text::lowered(device));
    if name == "cpu"@ {
        Some(DeviceChoice::Open { backend: ComputeBackend::Cpu, device_id: 0 })
    } else if name == "gpu"@ || name == "auto"@ {
        Some(DeviceChoice::Detect)
    } else if name == "cuda"@ {
        Some(DeviceChoice::Open { backend: ComputeBackend::Cuda, device_id: 0 })
    } else if "cuda:"@.is_prefix_of(name) {
        Some(
            DeviceChoice::Open {
                backend: ComputeBackend::Cuda,
                device_id: device_number(name, "cuda:"@),
            },
        )
    } else if name == "mps"@ || "mps:"@.is_prefix_of(name) {
        Some(DeviceChoice::Open { backend: ComputeBackend::Mps, device_id: 0 })
    } else if name == "rocm"@ {
        Some(DeviceChoice::Open { backend: ComputeBackend::Rocm, device_id: 0 })
    } else if "rocm:"@.is_prefix_of(name) {
        Some(
            DeviceChoice::Open {
                backend: ComputeBackend::Rocm,
                device_id: device_number(name, "rocm:"@),
            },
        )
    } else if name == "intel"@ {
        Some(DeviceChoice::Open { backend: ComputeBackend::Intel, device_id: 0 })
    } else if "intel:"@.is_prefix_of(name) {
        Some(
            DeviceChoice::Open {
                backend: ComputeBackend::Intel,
                device_id: device_number(name, "intel:"@),
            },
        )
    } else {
        None
    }
}

fn number_or_zero(s: &str) -> (r: usize)
    ensures
        r == match text::number(s@, usize::MAX as nat) {
            Some(n) => n as usize,
            None => 0,
        },
{
    match text::parse_usize(s) {
        Some(n) => n,
        None => 0,
    }
}

impl DeviceChoice {
    /// Reads the name of a device.
    pub fn parse(device: &str) -> (r: Option<DeviceChoice>)
        ensures
            r == device_choice(device@),
    {
        let low: String = text::ascii_lowercase(device);
        let trimmed: String = text::trim(low.as_str());
        let name: &str = trimmed.as_str();
        if text::same(name, "cpu") {
            return Some(DeviceChoice::Open { backend: ComputeBackend::Cpu, device_id: 0 });
        }
        if text::same(name, "gpu") || text::same(name, "auto") {
            return Some(DeviceChoice::Detect);
        }
        if text::same(name, "cuda") {
            return Some(DeviceChoice::Open { backend: ComputeBackend::Cuda, device_id: 0 });
        }
        match text::strip_prefix(name, "cuda:") {
            Some(rest) => {
                let device_id: usize = number_or_zero(rest.as_str());
                return Some(DeviceChoice::Open { backend: ComputeBackend::Cuda, device_id });
            },
            None => {},
        }
        if text::same(name, "mps") || text::starts_with(name, "mps:") {
            return Some(DeviceChoice::Open { backend: ComputeBackend::Mps, device_id: 0 });
        }
        if text::same(name, "rocm") {
            return Some(DeviceChoice::Open { backend: ComputeBackend::Rocm, device_id: 0 });
        }
        match text::strip_prefix(name, "rocm:") {
            Some(rest) => {
                let device_id: usize = number_or_zero(rest.as_str());
                return Some(DeviceChoice::Open { backend: ComputeBackend::Rocm, device_id });
            },
            None => {},
        }
        if text::same(name, "intel") {
            return Some(DeviceChoice::Open { backend: ComputeBackend::Intel, device_id: 0 });
        }
        match text::strip_prefix(name, "intel:") {
            Some(rest) => {
                let device_id: usize = number_or_zero(rest.as_str());
                Some(DeviceChoice::Open { backend: ComputeBackend::Intel, device_id })
            },
            None => None,
        }
    }
}

/// A backend and the device of it that is used.
#[derive(Debug, Clone, Copy, PartialEq, Eq, Structural)]
pub struct ComputeContext {
    pub backend: ComputeBackend,
    /// The number of the device; -1 for the processor itself.
    pub device_id: i32,
}

impl Default for ComputeContext {
    fn default() -> (r: Self)
        ensures
            r == (ComputeContext { backend: ComputeBackend::Cpu, device_id: -1i32 }),
    {
        ComputeContext { backend: ComputeBackend::Cpu, device_id: -1 }
    }
}

/// The context of a device.
pub open spec fn context_of(backend: ComputeBackend, device_id: usize) -> ComputeContext {
    ComputeContext {
        backend,
        device_id: if backend == ComputeBackend::Cpu {
            -1i32
        } else {
            device_id as i32
        },
    }
}

/// The best of the backends that can be opened.
pub open spec fn best_backend(support: BackendSupport) -> ComputeBackend {
    if support.cuda {
        ComputeBackend::Cuda
    } else if support.mps {
        ComputeBackend::Mps
    } else if support.rocm {
        ComputeBackend::Rocm
    } else if support.intel {
        ComputeBackend::Intel
    } else {
        ComputeBackend::Cpu
    }
}

impl ComputeContext {
    /// The first device of a backend, if the backend can be opened.
    pub fn from_backend(backend: ComputeBackend, support: &BackendSupport) -> (r: Result<
        Self,
        DeviceError,
    >)
        ensures
            match r {
                Ok(c) => support.has(backend) && c == context_of(backend, 0),
                Err(e) => !support.has(backend) && e == DeviceError::Unavailable(backend),
            },
    {
        ComputeContext::from_backend_with_device(backend, 0, support)
    }

    /// A device of a backend, if the backend can be opened.
    pub fn from_backend_with_device(
        backend: ComputeBackend,
        device_id: usize,
        support: &BackendSupport,
    ) -> (r: Result<Self, DeviceError>)
        ensures
            match r {
                Ok(c) => support.has(backend) && c == context_of(backend, device_id),
                Err(e) => !support.has(backend) && e == DeviceError::Unavailable(backend),
            },
    {
        if !support.supports(backend) {
            return Err(DeviceError::Unavailable(backend));
        }
        let device_id: i32 = match backend {
            ComputeBackend::Cpu => -1,
            _ => device_id as i32,
        };
        Ok(ComputeContext { backend, device_id })
    }

    /// The context in use, else the first device of the best backend that can
    /// be opened.
    pub fn auto_detect(known: Option<ComputeContext>, support: &BackendSupport) -> (r: Self)
        ensures
            r == match known {
                Some(c) => c,
                None => context_of(best_backend(*support), 0),
            },
    {
        match known {
            Some(c) => c,
            None => {
                if support.cuda {
                    ComputeContext { backend: ComputeBackend::Cuda, device_id: 0 }
                } else if support.mps {
                    ComputeContext { backend: ComputeBackend::Mps, device_id: 0 }
                } else if support.rocm {
                    ComputeContext { backend: ComputeBackend::Rocm, device_id: 0 }
                } else if support.intel {
                    ComputeContext { backend: ComputeBackend::Intel, device_id: 0 }
                } else {
                    ComputeContext { backend: ComputeBackend::Cpu, device_id: -1 }
                }
            },
        }
    }

    /// The context that the name of a device asks for.
    pub fn from_device_str(
        device: &str,
        known: Option<ComputeContext>,
        support: &BackendSupport,
    ) -> (r: Result<Self, DeviceError>)
        ensures
            match device_choice(device@) {
                None => r matches Err(DeviceError::Unsupported(d)) && d@ == device@,
                Some(DeviceChoice::Detect) => r == Ok::<ComputeContext, DeviceError>(
                    match known {
                        Some(c) => c,
                        None => context_of(best_backend(*support), 0),
                    },
                ),
                Some(DeviceChoice::Open { backend, device_id }) => match r {
                    Ok(c) => support.has(backend) && c == context_of(backend, device_id),
                    Err(e) => !support.has(backend) && e == DeviceError::Unavailable(backend),
                },
            },
    {
        match DeviceChoice::parse(device) {
            None => Err(DeviceError::Unsupported(device.to_owned())),
            Some(DeviceChoice::Detect) => Ok(ComputeContext::auto_detect(known, support)),
            Some(DeviceChoice::Open { backend, device_id }) =>
                ComputeContext::from_backend_with_device(backend, device_id, support),
        }
    }

    /// The name of the backend.
    pub open spec fn spec_name(self) -> Seq<char> {
        match self.backend {
            ComputeBackend::Cpu => "cpu"@,
            ComputeBackend::Cuda => "cuda"@,
            ComputeBackend::Rocm => "rocm"@,
            ComputeBackend::Mps => "mps"@,
            ComputeBackend::Intel => "intel"@,
        }
    }

    /// The name of the backend.
    pub fn backend_name(&self) -> (r: &'static str)
        ensures
            r@ == self.spec_name(),
    {
        match self.backend {
            ComputeBackend::Cpu => "cpu",
            ComputeBackend::Cuda => "cuda",
            ComputeBackend::Rocm => "rocm",
            ComputeBackend::Mps => "mps",
            ComputeBackend::Intel => "intel",
        }
    }

    /// Whether the backend is another device than the processor.
    pub fn is_gpu(&self) -> (r: bool)
        ensures
            r == (self.backend != ComputeBackend::Cpu),
    {
        self.backend != ComputeBackend::Cpu
    }

    /// Whether the backend can be opened.
    pub fn is_available(&self, support: &BackendSupport) -> (r: bool)
        ensures
            r == support.has(self.backend),
    {
        support.supports(self.backend)
    }
}

/// The processor itself.
#[derive(Debug, Clone, Copy, PartialEq, Eq, Structural)]
pub struct CpuBackend;

impl CpuBackend {
    /// The name of the backend.
    pub fn name(&self) -> (r: &'static str)
        ensures
            r@ == "CPU (SIMD)"@,
    {
        "CPU (SIMD)"
    }
}

proof fn lemma_names_are_stable()
    ensures
        text::trimmed(text::lowered("cpu"@)) == "cpu"@,
        text::trimmed(text::lowered("cuda"@)) == "cuda"@,
        text::trimmed(text::lowered("rocm"@)) == "rocm"@,
        text::trimmed(text::lowered("mps"@)) == "mps"@,
        text::trimmed(text::lowered("intel"@)) == "intel"@,
{
    reveal_strlit("cpu");
    reveal_strlit("cuda");
    reveal_strlit("rocm");
    reveal_strlit("mps");
    reveal_strlit("intel");
    assert(text::lowered("cpu"@) =~= "cpu"@);
    assert(text::lowered("cuda"@) =~= "cuda"@);
    assert(text::lowered("rocm"@) =~= "rocm"@);
    assert(text::lowered("mps"@) =~= "mps"@);
    assert(text::lowered("intel"@) =~= "intel"@);
}

/// The name of a backend asks for that backend.
pub proof fn law_names_choose_their_backend(c: ComputeContext)
    ensures
        device_choice(c.spec_name()) == Some(
            DeviceChoice::Open { backend: c.backend, device_id: 0 },
        ),
{
    lemma_names_are_stable();
    reveal_strlit("cpu");
    reveal_strlit("gpu");
    reveal_strlit("auto");
    reveal_strlit("cuda");
    reveal_strlit("rocm");
    reveal_strlit("mps");
    reveal_strlit("intel");
    reveal_strlit("cuda:");
    reveal_strlit("rocm:");
    reveal_strlit("mps:");
    assert("cpu"@.len() == 3 && "gpu"@.len() == 3 && "mps"@.len() == 3 && "auto"@.len() == 4
        && "cuda"@.len() == 4 && "rocm"@.len() == 4 && "intel"@.len() == 5 && "cuda:"@.len() == 5
        && "rocm:"@.len() == 5 && "mps:"@.len() == 4);
    assert("cpu"@[0] == 'c' && "gpu"@[0] == 'g' && "mps"@[0] == 'm' && "auto"@[0] == 'a'
        && "cuda"@[0] == 'c' && "rocm"@[0] == 'r' && "intel"@[0] == 'i');
    assert("cuda:"@[0] == 'c' && "rocm:"@[0] == 'r' && "mps:"@[0] == 'm');
}

// ---------------------------------------------------------------------------
// Dispatch
// ---------------------------------------------------------------------------

/// Batches of fewer vectors are not worth sending to a device.
pub const GPU_DISPATCH_THRESHOLD: usize = 50_000;

/// The number of vectors in a flat buffer; none without a dimension.
pub open spec fn vector_count(len: int, dim: int) -> int {
    if dim == 0 {
        0
    } else {
        len / dim
    }
}

/// There are too few vectors for the device.
pub open spec fn is_small(len: int, dim: int, context: ComputeContext) -> bool {
    vector_count(len, dim) < GPU_DISPATCH_THRESHOLD && context.backend != ComputeBackend::Cpu
}

/// Whether a batch is computed on the processor although a device is in use.
pub fn stays_on_cpu(len: usize, dim: usize, context: &ComputeContext) -> (r: bool)
    ensures
        r == is_small(len as int, dim as int, *context),
{
    let n: usize = if dim == 0 {
        0
    } else {
        len / dim
    };
    n < GPU_DISPATCH_THRESHOLD && context.backend != ComputeBackend::Cpu
}

/// A flat buffer does not hold whole vectors.
#[derive(Clone, Copy, Debug, PartialEq, Eq, Structural)]
pub struct SizeMismatch {
    pub len: usize,
    pub dim: usize,
}

/// A flat buffer holds whole vectors.
pub open spec fn holds_vectors(len: int, dim: int) -> bool {
    if dim == 0 {
        len == 0
    } else {
        len % dim == 0
    }
}

/// How the distances of the vectors in a flat buffer are computed.
#[derive(Clone, Copy, Debug, PartialEq, Eq, Structural)]
pub struct DistancePlan {
    /// The number of vectors.
    pub vectors: usize,
    /// Whether they are computed on the processor although a device is in use.
    pub on_cpu: bool,
}

/// Plans the distances of the vectors in a flat buffer, which has to hold whole ones.
pub fn plan_distances(len: usize, dim: usize, context: &ComputeContext) -> (r: Result<
    DistancePlan,
    SizeMismatch,
>)
    requires
        dim > 0 || len == 0,
    ensures
        match r {
            Ok(plan) => {
                &&& holds_vectors(len as int, dim as int)
                &&& plan.vectors == vector_count(len as int, dim as int)
                &&& plan.on_cpu == is_small(len as int, dim as int, *context)
            },
            Err(e) => !holds_vectors(len as int, dim as int) && e == (SizeMismatch { len, dim }),
        },
{
    if dim > 0 && len % dim != 0 {
        return Err(SizeMismatch { len, dim });
    }
    let vectors: usize = if dim == 0 {
        0
    } else {
        len / dim
    };
    Ok(DistancePlan { vectors, on_cpu: stays_on_cpu(len, dim, context) })
}

/// The number of a metric in the kernel for dense vectors.
pub fn dense_metric_code(metric: VectorMetric) -> (r: u32)
    ensures
        r == match metric {
            VectorMetric::L2 => 0u32,
            VectorMetric::InnerProduct => 1,
            VectorMetric::Cosine => 2,
            VectorMetric::L1 => 3,
            VectorMetric::Hamming => 4,
            VectorMetric::Jaccard => 5,
        },
{
    match metric {
        VectorMetric::L2 => 0,
        VectorMetric::InnerProduct => 1,
        VectorMetric::Cosine => 2,
        VectorMetric::L1 => 3,
        VectorMetric::Hamming => 4,
        VectorMetric::Jaccard => 5,
    }
}

/// The number of a metric in the kernel for packed vectors; it has two.
pub fn packed_metric_code(metric: VectorMetric) -> (r: Option<u32>)
    ensures
        r == match metric {
            VectorMetric::Hamming => Some(0u32),
            VectorMetric::Jaccard => Some(1u32),
            _ => None,
        },
{
    match metric {
        VectorMetric::Hamming => Some(0),
        VectorMetric::Jaccard => Some(1),
        _ => None,
    }
}

/// The name of the kernel for dense vectors of a metric.
pub open spec fn kernel_module(metric: VectorMetric) -> Seq<char> {
    match metric {
        VectorMetric::L2 => "l2_distance"@,
        VectorMetric::Cosine => "cosine_distance"@,
        VectorMetric::InnerProduct => "inner_product"@,
        VectorMetric::L1 => "l1_distance"@,
        VectorMetric::Hamming => "hamming_distance"@,
        VectorMetric::Jaccard => "jaccard_distance"@,
    }
}

/// The module of the kernel for dense vectors of a metric, and the kernel.
pub fn dense_kernel(metric: VectorMetric) -> (r: (&'static str, String))
    ensures
        r.0@ == kernel_module(metric),
        r.1@ == kernel_module(metric) + "_kernel"@,
{
    let module: &'static str = match metric {
        VectorMetric::L2 => "l2_distance",
        VectorMetric::Cosine => "cosine_distance",
        VectorMetric::InnerProduct => "inner_product",
        VectorMetric::L1 => "l1_distance",
        VectorMetric::Hamming => "hamming_distance",
        VectorMetric::Jaccard => "jaccard_distance",
    };
    let mut kernel: String = module.to_owned();
    kernel.append("_kernel");
    (module, kernel)
}

/// The module of the kernel for packed vectors of a metric, and the kernel.
pub fn packed_kernel(metric: VectorMetric) -> (r: Option<(&'static str, &'static str)>)
    ensures
        match (metric, r) {
            (VectorMetric::Hamming, Some(k)) => k.0@ == "hamming_packed"@ && k.1@
                == "hamming_packed_kernel"@,
            (VectorMetric::Jaccard, Some(k)) => k.0@ == "jaccard_packed"@ && k.1@
                == "jaccard_packed_kernel"@,
            (VectorMetric::Hamming, None) => false,
            (VectorMetric::Jaccard, None) => false,
            (_, k) => k is None,
        },
{
    match metric {
        VectorMetric::Hamming => Some(("hamming_packed", "hamming_packed_kernel")),
        VectorMetric::Jaccard => Some(("jaccard_packed", "jaccard_packed_kernel")),
        _ => None,
    }
}

/// How many groups of a size hold a number of items.
pub open spec fn groups(n: int, size: int) -> int {
    (n + size - 1) / size
}

/// How many groups of 64 the kernels run for a number of vectors.
pub fn workgroups(vectors: u32) -> (r: u32)
    ensures
        r == groups(vectors as int, 64),
{
    if vectors % 64 == 0 {
        vectors / 64
    } else {
        vectors / 64 + 1
    }
}

// ---------------------------------------------------------------------------
// Packed vectors
// ---------------------------------------------------------------------------

/// The number of words of a packed vector.
pub open spec fn words_per_vector(dim_bytes: int) -> int {
    groups(dim_bytes, 4)
}

/// Byte `i` of a vector of `dim` bytes at position `at`, zero behind its end.
pub open spec fn padded_byte(bytes: Seq<u8>, at: int, dim: int, i: int) -> u8 {
    if i < dim {
        bytes[at + i]
    } else {
        0
    }
}

/// Word `w` of a vector: four of its bytes, the lowest first, with zeros behind
/// its end.
pub open spec fn packed_word(bytes: Seq<u8>, at: int, dim: int, w: int) -> u32 {
    (padded_byte(bytes, at, dim, 4 * w) + 256 * padded_byte(bytes, at, dim, 4 * w + 1) + 65536
        * padded_byte(bytes, at, dim, 4 * w + 2) + 16777216 * padded_byte(
        bytes,
        at,
        dim,
        4 * w + 3,
    )) as u32
}

fn byte_or_zero(bytes: &[u8], at: usize, dim: usize, i: usize) -> (r: u8)
    requires
        at + dim <= bytes@.len(),
    ensures
        r == padded_byte(bytes@, at as int, dim as int, i as int),
{
    if i < dim {
        assert(at + i < bytes.len());
        bytes[at + i]
    } else {
        0
    }
}

/// Packs vectors of `dim_bytes` bytes into words, each vector padded with zeros
/// to whole words. Bytes behind the last whole vector are left out.
pub fn pack_words(bytes: &[u8], dim_bytes: usize) -> (r: Vec<u32>)
    requires
        0 < dim_bytes,
        dim_bytes < usize::MAX - 4,
    ensures
        r.len() == (bytes@.len() / (dim_bytes as nat)) * words_per_vector(dim_bytes as int),
        forall|v: int, w: int|
            0 <= v < bytes@.len() / (dim_bytes as nat) && 0 <= w < words_per_vector(
                dim_bytes as int,
            ) ==> r@[v * words_per_vector(dim_bytes as int) + w] == #[trigger] packed_word(
                bytes@,
                v * dim_bytes,
                dim_bytes as int,
                w,
            ),
{
    let len: usize = bytes.len();
    let count: usize = len / dim_bytes;
    let words: usize = dim_bytes / 4 + if dim_bytes % 4 == 0 {
        0
    } else {
        1
    };
    let ghost dim = dim_bytes as int;
    assert(words == words_per_vector(dim));
    let mut out: Vec<u32> = Vec::new();
    let mut v: usize = 0;
    let mut at: usize = 0;
    assert(0 * words == 0) by (nonlinear_arith);
    assert(0 * dim == 0) by (nonlinear_arith);
    assert(count * dim <= len) by (nonlinear_arith)
        requires
            dim > 0,
            count == len as int / dim,
    ;
    while v < count
        invariant
            v <= count,
            len == bytes@.len(),
            dim == dim_bytes,
            0 < dim_bytes < usize::MAX - 4,
            count * dim <= len,
            words == words_per_vector(dim),
            at == v * dim,
            out.len() == v * words,
            forall|a: int, w: int|
                0 <= a < v && 0 <= w < words ==> out@[a * words + w] == #[trigger] packed_word(
                    bytes@,
                    a * dim,
                    dim,
                    w,
                ),
        decreases count - v,
    {
        assert(at + dim <= len) by (nonlinear_arith)
            requires
                at == v * dim,
                v + 1 <= count,
                count * dim <= len,
                dim > 0,
        ;
        let ghost before = out@;
        let mut w: usize = 0;
        while w < words
            invariant
                w <= words,
                len == bytes@.len(),
                dim == dim_bytes,
                at + dim_bytes <= len,
                0 < dim_bytes < usize::MAX - 4,
                words == words_per_vector(dim),
                before.len() == v * words,
                out.len() == before.len() + w,
                forall|i: int| 0 <= i < before.len() ==> #[trigger] out@[i] == before[i],
                forall|k: int|
                    0 <= k < w ==> out@[before.len() + k] == #[trigger] packed_word(
                        bytes@,
                        at as int,
                        dim,
                        k,
                    ),
            decreases words - w,
        {
            let i: usize = 4 * w;
            let word: u32 = byte_or_zero(bytes, at, dim_bytes, i) as u32 + 256 * (byte_or_zero(
                bytes,
                at,
                dim_bytes,
                i + 1,
            ) as u32) + 65536 * (byte_or_zero(bytes, at, dim_bytes, i + 2) as u32) + 16777216 * (
            byte_or_zero(bytes, at, dim_bytes, i + 3) as u32);
            assert(word == packed_word(bytes@, at as int, dim, w as int));
            out.push(word);
            w = w + 1;
        }
        proof {
            assert((v + 1) * words == v * words + words) by (nonlinear_arith);
            assert((v + 1) * dim == v * dim + dim) by (nonlinear_arith);
            assert forall|a: int, k: int| 0 <= a < v + 1 && 0 <= k < words implies out@[a * words
                + k] == #[trigger] packed_word(bytes@, a * dim, dim, k) by {
                if a < v {
                    assert(a * words + k < v * words) by (nonlinear_arith)
                        requires
                            0 <= a < v,
                            0 <= k < words,
                    ;
                    assert(0 <= a * words) by (nonlinear_arith)
                        requires
                            0 <= a,
                            0 <= words,
                    ;
                    assert(before[a * words + k] == packed_word(bytes@, a * dim, dim, k));
                } else {
                    assert(out@[before.len() + k] == packed_word(bytes@, at as int, dim, k));
                }
            }
        }
        at = at + dim_bytes;
        v = v + 1;
    }
    out
}

/// Groups of a size hold all, and no group is without need.
pub proof fn law_groups_hold_all(n: int, size: int)
    requires
        0 <= n,
        0 < size,
    ensures
        n <= groups(n, size) * size < n + size,
{
    let q = (n + size - 1) / size;
    vstd::arithmetic::div_mod::lemma_fundamental_div_mod(n + size - 1, size);
    vstd::arithmetic::mul::lemma_mul_is_commutative(q, size);
    let r = (n + size - 1) % size;
    assert(0 <= r < size) by {
        vstd::arithmetic::div_mod::lemma_mod_bound(n + size - 1, size);
    }
}

/// The bytes of a vector stand in its words in their order, the first one lowest, and what is
/// left of the last word is zero.
pub proof fn law_words_hold_their_bytes(bytes: Seq<u8>, at: int, dim: int, w: int)
    requires
        0 <= at,
        0 < dim,
        at + dim <= bytes.len(),
        0 <= w,
    ensures
        ({
            let word = packed_word(bytes, at, dim, w) as int;
            let low = word % 256;
            let second = word / 256 % 256;
            let third = word / 65536 % 256;
            let high = word / 16777216;
            &&& low == if 4 * w < dim {
                bytes[at + 4 * w] as int
            } else {
                0
            }
            &&& second == if 4 * w + 1 < dim {
                bytes[at + 4 * w + 1] as int
            } else {
                0
            }
            &&& third == if 4 * w + 2 < dim {
                bytes[at + 4 * w + 2] as int
            } else {
                0
            }
            &&& high == if 4 * w + 3 < dim {
                bytes[at + 4 * w + 3] as int
            } else {
                0
            }
        }),
{
    let a = padded_byte(bytes, at, dim, 4 * w) as int;
    let b = padded_byte(bytes, at, dim, 4 * w + 1) as int;
    let c = padded_byte(bytes, at, dim, 4 * w + 2) as int;
    let d = padded_byte(bytes, at, dim, 4 * w + 3) as int;
    lemma_four_bytes(a, b, c, d);
    assert(packed_word(bytes, at, dim, w) as int == a + 256 * b + 65536 * c + 16777216 * d);
}

proof fn lemma_four_bytes(a: int, b: int, c: int, d: int)
    requires
        0 <= a < 256,
        0 <= b < 256,
        0 <= c < 256,
        0 <= d < 256,
    ensures
        ({
            let word = a + 256 * b + 65536 * c + 16777216 * d;
            &&& 0 <= word <= u32::MAX
            &&& word % 256 == a
            &&& word / 256 % 256 == b
            &&& word / 65536 % 256 == c
            &&& word / 16777216 == d
        }),
{
    let word = a + 256 * b + 65536 * c + 16777216 * d;
    let high = b + 256 * c + 65536 * d;
    let higher = c + 256 * d;
    assert(word == 256 * high + a);
    assert(high == 256 * higher + b);
    assert(word == 65536 * higher + (a + 256 * b));
    assert(word == 16777216 * d + (a + 256 * b + 65536 * c));
    lemma_quotient(word, 256, high, a);
    lemma_quotient(high, 256, higher, b);
    lemma_quotient(word, 65536, higher, a + 256 * b);
    lemma_quotient(higher, 256, d, c);
    lemma_quotient(word, 16777216, d, a + 256 * b + 65536 * c);
}

proof fn lemma_quotient(n: int, size: int, q: int, r: int)
    requires
        0 < size,
        0 <= r < size,
        n == size * q + r,
    ensures
        n / size == q,
        n % size == r,
{
    vstd::arithmetic::mul::lemma_mul_is_commutative(size, q);
    vstd::arithmetic::div_mod::lemma_fundamental_div_mod_converse(n, size, q, r);
}

/// What is chosen without being asked for is there, and no other that is there comes before
/// it: CUDA, Metal, ROCm, Intel and the processor, in this order.
pub proof fn law_the_best_backend_is_there(s: BackendSupport)
    ensures
        s.has(best_backend(s)),
        best_backend(s) is Mps ==> !s.cuda,
        best_backend(s) is Rocm ==> !s.cuda && !s.mps,
        best_backend(s) is Intel ==> !s.cuda && !s.mps && !s.rocm,
        best_backend(s) is Cpu ==> !s.cuda && !s.mps && !s.rocm && !s.intel,
{
}

proof fn lemma_numbered(prefix: Seq<char>, n: nat)
    requires
        prefix.len() > 0,
        forall|i: int| 0 <= i < prefix.len() ==> 'a' <= #[trigger] prefix[i] <= 'z' || prefix[i]
            == ':',
    ensures
        text::trimmed(text::lowered(prefix + text::decimal(n))) == prefix + text::decimal(n),
        prefix.is_prefix_of(prefix + text::decimal(n)),
        (prefix + text::decimal(n)).skip(prefix.len() as int) == text::decimal(n),
{
    text::law_decimal_is_bare(n);
    let d = text::decimal(n);
    let t = prefix + d;
    assert forall|i: int| 0 <= i < t.len() implies text::lower(#[trigger] t[i]) == t[i] by {
        if i < prefix.len() {
            assert(t[i] == prefix[i]);
        } else {
            assert(t[i] == d[i - prefix.len()]);
        }
    }
    assert(text::lowered(t) =~= t);
    assert(t[0] == prefix[0]);
    assert(t.last() == d[d.len() - 1]);
    assert(t.subrange(0, prefix.len() as int) =~= prefix);
    assert(t.skip(prefix.len() as int) =~= d);
}

/// A device is chosen by its number behind the name of its kind.
pub proof fn law_devices_are_chosen_by_number(n: usize)
    ensures
        device_choice("cuda:"@ + text::decimal(n as nat)) == Some(
            DeviceChoice::Open { backend: ComputeBackend::Cuda, device_id: n },
        ),
        device_choice("rocm:"@ + text::decimal(n as nat)) == Some(
            DeviceChoice::Open { backend: ComputeBackend::Rocm, device_id: n },
        ),
        device_choice("intel:"@ + text::decimal(n as nat)) == Some(
            DeviceChoice::Open { backend: ComputeBackend::Intel, device_id: n },
        ),
{
    let d = text::decimal(n as nat);
    text::law_decimal_reads_back(n as nat, usize::MAX as nat);
    text::law_decimal_is_bare(n as nat);
    reveal_strlit("cuda:");
    reveal_strlit("rocm:");
    reveal_strlit("intel:");
    reveal_strlit("cuda");
    reveal_strlit("rocm");
    reveal_strlit("intel");
    reveal_strlit("mps");
    reveal_strlit("mps:");
    reveal_strlit("cpu");
    reveal_strlit("gpu");
    reveal_strlit("auto");
    lemma_numbered("cuda:"@, n as nat);
    lemma_numbered("rocm:"@, n as nat);
    lemma_numbered("intel:"@, n as nat);
    let c = "cuda:"@ + d;
    let r = "rocm:"@ + d;
    let i = "intel:"@ + d;
    assert(c.len() >= 6 && r.len() >= 6 && i.len() >= 7);
    assert(r[0] == 'r' && i[0] == 'i');
    if "cuda:"@.is_prefix_of(r) {
        assert(r[0] == "cuda:"@[0]);
    }
    if "mps:"@.is_prefix_of(r) {
        assert(r[0] == "mps:"@[0]);
    }
    if "cuda:"@.is_prefix_of(i) {
        assert(i[0] == "cuda:"@[0]);
    }
    if "mps:"@.is_prefix_of(i) {
        assert(i[0] == "mps:"@[0]);
    }
    if "rocm:"@.is_prefix_of(i) {
        assert(i[0] == "rocm:"@[0]);
    }
}

/// Fifty thousand vectors or more go to the device, and fewer stay on the processor; whole
/// vectors are counted.
pub proof fn law_few_vectors_stay_on_the_processor(n: int, dim: int, context: ComputeContext)
    requires
        0 <= n,
        0 < dim,
    ensures
        holds_vectors(n * dim, dim),
        vector_count(n * dim, dim) == n,
        context.backend != ComputeBackend::Cpu
            ==> (is_small(n * dim, dim, context) <==> n < 50_000),
        context.backend == ComputeBackend::Cpu ==> !is_small(n * dim, dim, context),
{
    vstd::arithmetic::mul::lemma_mul_is_commutative(n, dim);
    vstd::arithmetic::div_mod::lemma_fundamental_div_mod_converse(n * dim, dim, n, 0);
}

} // verus!
