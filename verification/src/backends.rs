//! The compute and render backends offered to the user, and which of them
//! is chosen by default.
use vstd::prelude::*;
use crate::sources::{decimal, decimal_text};

verus! {

/// A compute backend offered to the user.
pub struct ComputeBackendInfo {
    pub id: String,
    pub label: String,
    pub is_available: bool,
    pub executes_on_gpu: bool,
    pub is_default: bool,
}

/// What was found out about the optional compute backends: `None` for one
/// that this build does not include, else whether it can run here.
#[derive(Clone, Copy)]
pub struct ComputeProbes {
    pub cuda: Option<bool>,
    pub webgpu: Option<bool>,
    pub opencl: Option<bool>,
    /// Whether DirectCompute can run here (on Windows).
    pub directcompute: bool,
}

/// One line of a backend list, as plain text and flags.
pub struct BackendEntry {
    pub id: Seq<char>,
    pub label: Seq<char>,
    pub is_available: bool,
    pub executes_on_gpu: bool,
}

/// The compute backends, in the order they are offered.
pub open spec fn compute_entries(p: ComputeProbes) -> Seq<BackendEntry> {
    seq![
        BackendEntry {
            id: "cpu"@,
            label: "CPU (rayon, всегда доступен)"@,
            is_available: true,
            executes_on_gpu: false,
        },
        match p.cuda {
            Some(available) => BackendEntry {
                id: "cuda"@,
                label: "NVIDIA CUDA"@,
                is_available: available,
                executes_on_gpu: available,
            },
            None => BackendEntry {
                id: "cuda"@,
                label: "NVIDIA CUDA (не собрано в этой сборке)"@,
                is_available: false,
                executes_on_gpu: false,
            },
        },
        match p.webgpu {
            Some(available) => BackendEntry {
                id: "webgpu"@,
                label: "WebGPU (Vulkan/DX12/Metal — любой GPU)"@,
                is_available: available,
                executes_on_gpu: available,
            },
            None => BackendEntry {
                id: "webgpu"@,
                label: "WebGPU (не собрано в этой сборке)"@,
                is_available: false,
                executes_on_gpu: false,
            },
        },
        match p.opencl {
            Some(available) => BackendEntry {
                id: "opencl"@,
                label: "OpenCL"@,
                is_available: available,
                executes_on_gpu: false,
            },
            None => BackendEntry {
                id: "opencl"@,
                label: "OpenCL (не собрано в этой сборке)"@,
                is_available: false,
                executes_on_gpu: false,
            },
        },
        BackendEntry {
            id: "directcompute"@,
            label: "DirectCompute (Direct3D 11)"@,
            is_available: p.directcompute,
            executes_on_gpu: false,
        },
    ]
}

/// Position of the first entry that is available and runs on the GPU.
pub open spec fn first_gpu_entry(entries: Seq<BackendEntry>) -> Option<int>
    decreases entries.len(),
{
    if entries.len() == 0 {
        None
    } else {
        match first_gpu_entry(entries.drop_last()) {
            Some(i) => Some(i),
            None => if entries.last().is_available && entries.last().executes_on_gpu {
                Some(entries.len() - 1)
            } else {
                None
            },
        }
    }
}

/// Whether a compute backend line shows `entry`.
pub open spec fn shows_entry(info: ComputeBackendInfo, entry: BackendEntry) -> bool {
    &&& info.id@ == entry.id
    &&& info.label@ == entry.label
    &&& info.is_available == entry.is_available
    &&& info.executes_on_gpu == entry.executes_on_gpu
}

/// Graphics API of a GPU adapter.
#[derive(PartialEq, Eq, Structural, Clone, Copy)]
pub enum GraphicsApi {
    Vulkan,
    Dx12,
    Metal,
    Gl,
    Other,
}

/// What is known of a graphics adapter found on the machine.
pub struct GpuAdapter {
    pub name: String,
    pub device: u32,
    pub api: GraphicsApi,
    /// Whether the adapter is a software rasteriser running on the CPU.
    pub is_cpu: bool,
}

/// A render backend offered to the user.
pub struct RenderBackendInfo {
    pub id: String,
    pub label: String,
    /// `"cpu"` or `"gpu"`.
    pub kind: String,
    pub is_default: bool,
}

/// Short id of a graphics API, for the APIs that can render.
pub open spec fn api_id_spec(api: GraphicsApi) -> Option<Seq<char>> {
    match api {
        GraphicsApi::Vulkan => Some("vulkan"@),
        GraphicsApi::Dx12 => Some("dx12"@),
        GraphicsApi::Metal => Some("metal"@),
        GraphicsApi::Gl => Some("gl"@),
        GraphicsApi::Other => None,
    }
}

/// Name of a graphics API as the user reads it.
pub open spec fn api_label_spec(api: GraphicsApi) -> Seq<char> {
    match api {
        GraphicsApi::Vulkan => "Vulkan"@,
        GraphicsApi::Dx12 => "DirectX 12"@,
        GraphicsApi::Metal => "Metal"@,
        GraphicsApi::Gl => "OpenGL"@,
        GraphicsApi::Other => "Неизвестный backend"@,
    }
}

/// One render backend line as id, label and kind.
pub struct RenderEntry {
    pub id: Seq<char>,
    pub label: Seq<char>,
    pub kind: Seq<char>,
}

/// The line an adapter gets, if it is a GPU with a known API.
pub open spec fn adapter_entry(a: GpuAdapter) -> Option<RenderEntry> {
    if a.is_cpu {
        None
    } else {
        match api_id_spec(a.api) {
            Some(api) => Some(
                RenderEntry {
                    id: api + ":"@ + decimal(a.device as nat),
                    label: a.name@ + " ("@ + api_label_spec(a.api) + ")"@,
                    kind: "gpu"@,
                },
            ),
            None => None,
        }
    }
}

/// The lines of the adapters, in order, skipping those that get none.
pub open spec fn adapter_entries(adapters: Seq<GpuAdapter>) -> Seq<RenderEntry>
    decreases adapters.len(),
{
    if adapters.len() == 0 {
        Seq::empty()
    } else {
        let before = adapter_entries(adapters.drop_last());
        match adapter_entry(adapters.last()) {
            Some(e) => before.push(e),
            None => before,
        }
    }
}

/// All render backend lines: the CPU first, then the GPUs.
pub open spec fn render_entries(adapters: Seq<GpuAdapter>) -> Seq<RenderEntry> {
    seq![
        RenderEntry {
            id: "cpu"@,
            label: "CPU (универсальный, всегда доступен)"@,
            kind: "cpu"@,
        },
    ] + adapter_entries(adapters)
}

fn compute_info(id: &str, label: &str, is_available: bool, executes_on_gpu: bool) -> (r:
    ComputeBackendInfo)
    ensures
        r.id@ == id@,
        r.label@ == label@,
        r.is_available == is_available,
        r.executes_on_gpu == executes_on_gpu,
        !r.is_default,
{
    ComputeBackendInfo {
        id: String::from_str(id),
        label: String::from_str(label),
        is_available,
        executes_on_gpu,
        is_default: false,
    }
}

/// Position of the first backend that is available and runs on the GPU.
fn first_gpu_index(backends: &Vec<ComputeBackendInfo>) -> (r: Option<usize>)
    ensures
        match first_available_gpu(backends@) {
            Some(b) => 0 <= b < backends@.len() && r == Some(b as usize),
            None => r is None,
        },
{
    let mut i: usize = 0;
    while i < backends.len()
        invariant
            i <= backends@.len(),
            first_available_gpu(backends@.take(i as int)) is None,
        decreases backends@.len() - i,
    {
        proof {
            assert(backends@.take(i + 1).drop_last() =~= backends@.take(i as int));
        }
        if backends[i].is_available && backends[i].executes_on_gpu {
            proof {
                assert(first_available_gpu(backends@.take(i + 1)) == Some(i as int));
                lemma_first_available_gpu_prefix(backends@, i + 1);
            }
            return Some(i);
        }
        i = i + 1;
    }
    proof {
        assert(backends@.take(i as int) =~= backends@);
    }
    None
}

/// Marks as the default the backend whose id is that of the first
/// available GPU backend; when there is none, the marks stay as they are.
fn mark_first_gpu_default(backends: &mut Vec<ComputeBackendInfo>)
    ensures
        final(backends)@.len() == old(backends)@.len(),
        forall|i: int|
            0 <= i < final(backends)@.len() ==> {
                &&& (#[trigger] final(backends)@[i]).id == old(backends)@[i].id
                &&& final(backends)@[i].label == old(backends)@[i].label
                &&& final(backends)@[i].is_available == old(backends)@[i].is_available
                &&& final(backends)@[i].executes_on_gpu == old(backends)@[i].executes_on_gpu
            },
        match first_available_gpu(old(backends)@) {
            Some(b) => forall|i: int|
                0 <= i < final(backends)@.len() ==> (#[trigger] final(backends)@[i]).is_default == (
                final(backends)@[i].id@ == old(backends)@[b].id@),
            None => forall|i: int|
                0 <= i < final(backends)@.len() ==> (#[trigger] final(backends)@[i]).is_default
                    == old(backends)@[i].is_default,
        },
{
    let best = first_gpu_index(backends);
    match best {
        None => {},
        Some(b) => {
            let best_id = backends[b].id.clone();
            let ghost before = backends@;
            let mut j: usize = 0;
            while j < backends.len()
                invariant
                    j <= backends@.len(),
                    backends@.len() == before.len(),
                    b < before.len(),
                    best_id@ == before[b as int].id@,
                    forall|k: int|
                        0 <= k < backends@.len() ==> {
                            &&& (#[trigger] backends@[k]).id == before[k].id
                            &&& backends@[k].label == before[k].label
                            &&& backends@[k].is_available == before[k].is_available
                            &&& backends@[k].executes_on_gpu == before[k].executes_on_gpu
                        },
                    forall|k: int|
                        0 <= k < j ==> (#[trigger] backends@[k]).is_default == (backends@[k].id@
                            == best_id@),
                decreases backends@.len() - j,
            {
                let same = backends[j].id == best_id;
                backends[j].is_default = same;
                j = j + 1;
            }
        },
    }
}

/// Position of the first backend line that is available and runs on the GPU.
pub open spec fn first_available_gpu(backends: Seq<ComputeBackendInfo>) -> Option<int>
    decreases backends.len(),
{
    if backends.len() == 0 {
        None
    } else {
        match first_available_gpu(backends.drop_last()) {
            Some(i) => Some(i),
            None => if backends.last().is_available && backends.last().executes_on_gpu {
                Some(backends.len() - 1)
            } else {
                None
            },
        }
    }
}

proof fn lemma_first_available_gpu_prefix(backends: Seq<ComputeBackendInfo>, n: int)
    requires
        0 <= n <= backends.len(),
        first_available_gpu(backends.take(n)) is Some,
    ensures
        first_available_gpu(backends) == first_available_gpu(backends.take(n)),
    decreases backends.len() - n,
{
    if n < backends.len() {
        assert(backends.take(n + 1).drop_last() =~= backends.take(n));
        lemma_first_available_gpu_prefix(backends, n + 1);
    } else {
        assert(backends.take(n) =~= backends);
    }
}

/// The compute backends offered to the user: the CPU (always available),
/// CUDA, WebGPU, OpenCL and DirectCompute, each as the probes found it; the
/// first available backend that runs on the GPU is the default, else the CPU.
pub fn list_compute_backends(probes: ComputeProbes) -> (r: Vec<ComputeBackendInfo>)
    ensures
        r@.len() == 5,
        forall|i: int| 0 <= i < 5 ==> shows_entry(#[trigger] r@[i], compute_entries(probes)[i]),
        forall|i: int|
            0 <= i < 5 ==> (#[trigger] r@[i]).is_default == match first_gpu_entry(
                compute_entries(probes),
            ) {
                Some(b) => i == b,
                None => i == 0,
            },
{
    let mut backends: Vec<ComputeBackendInfo> = Vec::new();
    let mut cpu = compute_info("cpu", "CPU (rayon, всегда доступен)", true, false);
    cpu.is_default = true;
    backends.push(cpu);
    match probes.cuda {
        Some(available) => backends.push(compute_info("cuda", "NVIDIA CUDA", available, available)),
        None => backends.push(
            compute_info("cuda", "NVIDIA CUDA (не собрано в этой сборке)", false, false),
        ),
    }
    match probes.webgpu {
        Some(available) => backends.push(
            compute_info("webgpu", "WebGPU (Vulkan/DX12/Metal — любой GPU)", available, available),
        ),
        None => backends.push(
            compute_info("webgpu", "WebGPU (не собрано в этой сборке)", false, false),
        ),
    }
    match probes.opencl {
        Some(available) => backends.push(compute_info("opencl", "OpenCL", available, false)),
        None => backends.push(
            compute_info("opencl", "OpenCL (не собрано в этой сборке)", false, false),
        ),
    }
    backends.push(
        compute_info("directcompute", "DirectCompute (Direct3D 11)", probes.directcompute, false),
    );
    let ghost before = backends@;
    proof {
        reveal_strlit("cpu");
        reveal_strlit("cuda");
        reveal_strlit("webgpu");
        reveal_strlit("opencl");
        reveal_strlit("directcompute");
        let e = compute_entries(probes);
        assert(forall|i: int| 0 <= i < 5 ==> shows_entry(#[trigger] before[i], e[i]));
        lemma_first_gpu_agrees(before, e);
        lemma_first_gpu_bounds(e);
        assert(before[0].is_default);
        assert(forall|i: int| 1 <= i < 5 ==> !(#[trigger] before[i]).is_default);
        assert("cpu"@.len() == 3 && "cuda"@.len() == 4 && "webgpu"@.len() == 6);
        assert("opencl"@.len() == 6 && "directcompute"@.len() == 13);
        assert("webgpu"@[0] != "opencl"@[0]);
    }
    mark_first_gpu_default(&mut backends);
    proof {
        let e = compute_entries(probes);
        match first_gpu_entry(e) {
            Some(b) => {
                assert(b == 1 || b == 2);
                assert forall|i: int| 0 <= i < 5 implies (#[trigger] backends@[i]).is_default == (i
                    == b) by {
                    if i != b {
                        assert(backends@[i].id@ != before[b].id@);
                    }
                }
            },
            None => {},
        }
    }
    backends
}

proof fn lemma_first_gpu_agrees(backends: Seq<ComputeBackendInfo>, entries: Seq<BackendEntry>)
    requires
        backends.len() == entries.len(),
        forall|i: int| 0 <= i < backends.len() ==> shows_entry(#[trigger] backends[i], entries[i]),
    ensures
        first_available_gpu(backends) == first_gpu_entry(entries),
    decreases backends.len(),
{
    if backends.len() > 0 {
        lemma_first_gpu_agrees(backends.drop_last(), entries.drop_last());
    }
}

/// Name of a graphics API as the user reads it.
pub fn backend_label(api: GraphicsApi) -> (r: &'static str)
    ensures
        r@ == api_label_spec(api),
{
    match api {
        GraphicsApi::Vulkan => "Vulkan",
        GraphicsApi::Dx12 => "DirectX 12",
        GraphicsApi::Metal => "Metal",
        GraphicsApi::Gl => "OpenGL",
        GraphicsApi::Other => "Неизвестный backend",
    }
}

fn api_id(api: GraphicsApi) -> (r: Option<&'static str>)
    ensures
        match r {
            Some(s) => api_id_spec(api) == Some(s@),
            None => api_id_spec(api) is None,
        },
{
    match api {
        GraphicsApi::Vulkan => Some("vulkan"),
        GraphicsApi::Dx12 => Some("dx12"),
        GraphicsApi::Metal => Some("metal"),
        GraphicsApi::Gl => Some("gl"),
        GraphicsApi::Other => None,
    }
}

/// Whether a render backend line shows `entry`.
pub open spec fn shows_render_entry(info: RenderBackendInfo, entry: RenderEntry) -> bool {
    info.id@ == entry.id && info.label@ == entry.label && info.kind@ == entry.kind
}

/// The render backends offered to the user: the CPU first, then every GPU
/// adapter with a known graphics API, in the order found; the first GPU is
/// the default, else the CPU.
pub fn list_render_backends(adapters: &Vec<GpuAdapter>) -> (r: Vec<RenderBackendInfo>)
    ensures
        r@.len() == render_entries(adapters@).len(),
        forall|i: int|
            0 <= i < r@.len() ==> shows_render_entry(#[trigger] r@[i], render_entries(adapters@)[i]),
        forall|i: int|
            0 <= i < r@.len() ==> (#[trigger] r@[i]).is_default == (i == if r@.len() > 1 {
                1int
            } else {
                0int
            }),
{
    let mut backends: Vec<RenderBackendInfo> = Vec::new();
    backends.push(
        RenderBackendInfo {
            id: String::from_str("cpu"),
            label: String::from_str("CPU (универсальный, всегда доступен)"),
            kind: String::from_str("cpu"),
            is_default: false,
        },
    );
    let mut i: usize = 0;
    while i < adapters.len()
        invariant
            i <= adapters@.len(),
            backends@.len() == 1 + adapter_entries(adapters@.take(i as int)).len(),
            forall|k: int|
                0 <= k < backends@.len() ==> shows_render_entry(
                    #[trigger] backends@[k],
                    render_entries(adapters@.take(i as int))[k],
                ),
            forall|k: int| 0 <= k < backends@.len() ==> !(#[trigger] backends@[k]).is_default,
        decreases adapters@.len() - i,
    {
        let adapter = &adapters[i];
        proof {
            assert(adapters@.take(i + 1).drop_last() =~= adapters@.take(i as int));
            assert(adapters@.take(i + 1).last() == adapters@[i as int]);
        }
        if !adapter.is_cpu {
            match api_id(adapter.api) {
                Some(api) => {
                    let id = String::from_str(api).concat(":").concat(
                        decimal_text(adapter.device).as_str(),
                    );
                    let label = adapter.name.clone().concat(" (").concat(
                        backend_label(adapter.api),
                    ).concat(")");
                    backends.push(
                        RenderBackendInfo {
                            id,
                            label,
                            kind: String::from_str("gpu"),
                            is_default: false,
                        },
                    );
                },
                None => {},
            }
        }
        i = i + 1;
    }
    proof {
        assert(adapters@.take(i as int) =~= adapters@);
    }
    let d: usize = if backends.len() > 1 {
        1
    } else {
        0
    };
    backends[d].is_default = true;
    backends
}

/// The default compute backend is always one that can run, and it runs on
/// the GPU whenever some offered backend can run there.
pub proof fn law_default_compute_backend(probes: ComputeProbes, d: int)
    requires
        d == match first_gpu_entry(compute_entries(probes)) {
            Some(b) => b,
            None => 0,
        },
    ensures
        0 <= d < 5,
        compute_entries(probes)[d].is_available,
        (exists|i: int|
            0 <= i < 5 && (#[trigger] compute_entries(probes)[i]).is_available
                && compute_entries(probes)[i].executes_on_gpu) ==> compute_entries(
            probes,
        )[d].executes_on_gpu,
{
    lemma_first_gpu_bounds(compute_entries(probes));
}

proof fn lemma_first_gpu_bounds(entries: Seq<BackendEntry>)
    ensures
        match first_gpu_entry(entries) {
            Some(b) => 0 <= b < entries.len() && entries[b].is_available
                && entries[b].executes_on_gpu,
            None => forall|i: int|
                0 <= i < entries.len() ==> !((#[trigger] entries[i]).is_available
                    && entries[i].executes_on_gpu),
        },
    decreases entries.len(),
{
    if entries.len() > 0 {
        lemma_first_gpu_bounds(entries.drop_last());
        if first_gpu_entry(entries.drop_last()) is None {
            assert forall|i: int| 0 <= i < entries.len() - 1 implies entries[i] == entries.drop_last()[i] by {}
        }
    }
}


/// The compute backends are offered as `cpu`, `cuda`, `webgpu`, `opencl`
/// and `directcompute`, in that order. Only CUDA and WebGPU run on the GPU,
/// each when its probe found it available; the CPU always runs, OpenCL and
/// DirectCompute never count as running on the GPU. So the default is CUDA
/// when it is available, else WebGPU when it is available, else the CPU,
/// whatever OpenCL and DirectCompute can do.
pub proof fn law_compute_default_follows_gpu_probes(probes: ComputeProbes)
    ensures
        compute_entries(probes).len() == 5,
        compute_entries(probes)[0].id == "cpu"@ && compute_entries(probes)[0].is_available,
        compute_entries(probes)[1].id == "cuda"@,
        compute_entries(probes)[2].id == "webgpu"@,
        compute_entries(probes)[3].id == "opencl"@,
        compute_entries(probes)[4].id == "directcompute"@,
        !compute_entries(probes)[0].executes_on_gpu,
        compute_entries(probes)[1].executes_on_gpu == (probes.cuda == Some(true)),
        compute_entries(probes)[2].executes_on_gpu == (probes.webgpu == Some(true)),
        !compute_entries(probes)[3].executes_on_gpu,
        !compute_entries(probes)[4].executes_on_gpu,
        compute_entries(probes)[4].is_available == probes.directcompute,
        first_gpu_entry(compute_entries(probes)) == if probes.cuda == Some(true) {
            Some(1int)
        } else if probes.webgpu == Some(true) {
            Some(2int)
        } else {
            None
        },
{
    let e = compute_entries(probes);
    let p1 = e.subrange(0, 1);
    let p2 = e.subrange(0, 2);
    let p3 = e.subrange(0, 3);
    let p4 = e.subrange(0, 4);
    assert(first_gpu_entry(e.subrange(0, 0)) is None);
    assert(p1.drop_last() =~= e.subrange(0, 0));
    assert(p1.last() == e[0]);
    assert(first_gpu_entry(p1) is None);
    assert(p2.drop_last() =~= p1);
    assert(p2.last() == e[1]);
    let g2 = first_gpu_entry(p2);
    assert(g2 == if probes.cuda == Some(true) {
        Some(1int)
    } else {
        None
    });
    assert(p3.drop_last() =~= p2);
    assert(p3.last() == e[2]);
    let g3 = first_gpu_entry(p3);
    assert(g3 == if probes.cuda == Some(true) {
        Some(1int)
    } else if probes.webgpu == Some(true) {
        Some(2int)
    } else {
        None
    });
    assert(p4.drop_last() =~= p3);
    assert(p4.last() == e[3]);
    assert(first_gpu_entry(p4) == g3);
    assert(e.drop_last() =~= p4);
    assert(e.last() == e[4]);
}

/// A GPU adapter gets a render line exactly when it is no software
/// rasteriser and its graphics API is Vulkan, DirectX 12, Metal or OpenGL;
/// the line's id is `vulkan`, `dx12`, `metal` or `gl`, a colon and the
/// device number, its label the adapter's name with the API in brackets,
/// and its kind `gpu`.
pub proof fn law_adapter_line(a: GpuAdapter)
    ensures
        adapter_entry(a) is Some <==> (!a.is_cpu && a.api != GraphicsApi::Other),
        adapter_entry(a) matches Some(e) ==> {
            &&& e.kind == "gpu"@
            &&& e.id == (match a.api {
                GraphicsApi::Vulkan => "vulkan"@,
                GraphicsApi::Dx12 => "dx12"@,
                GraphicsApi::Metal => "metal"@,
                GraphicsApi::Gl => "gl"@,
                GraphicsApi::Other => Seq::<char>::empty(),
            }) + ":"@ + decimal(a.device as nat)
            &&& e.label == a.name@ + " ("@ + (match a.api {
                GraphicsApi::Vulkan => "Vulkan"@,
                GraphicsApi::Dx12 => "DirectX 12"@,
                GraphicsApi::Metal => "Metal"@,
                GraphicsApi::Gl => "OpenGL"@,
                GraphicsApi::Other => Seq::<char>::empty(),
            }) + ")"@
        },
{
}

/// The render list is the CPU line followed by one line for each adapter
/// that gets one, in the order of the adapters: every such adapter's line
/// is listed, and every listed GPU line is the line of some adapter.
pub proof fn law_render_lines_cover_adapters(adapters: Seq<GpuAdapter>)
    ensures
        render_entries(adapters)[0].id == "cpu"@,
        forall|i: int|
            0 <= i < adapters.len() && (#[trigger] adapter_entry(adapters[i])) is Some
                ==> render_entries(adapters).subrange(1, render_entries(adapters).len() as int).contains(
                adapter_entry(adapters[i])->0,
            ),
        forall|j: int|
            1 <= j < render_entries(adapters).len() ==> exists|i: int|
                0 <= i < adapters.len() && adapter_entry(adapters[i]) == Some(
                    #[trigger] render_entries(adapters)[j],
                ),
{
    let all = render_entries(adapters);
    let gpus = adapter_entries(adapters);
    assert(all.subrange(1, all.len() as int) =~= gpus);
    lemma_adapter_entries_cover(adapters);
    assert forall|j: int| 1 <= j < all.len() implies exists|i: int|
        0 <= i < adapters.len() && adapter_entry(adapters[i]) == Some(#[trigger] all[j]) by {
        assert(all[j] == gpus[j - 1]);
    }
}

proof fn lemma_adapter_entries_cover(adapters: Seq<GpuAdapter>)
    ensures
        forall|i: int|
            0 <= i < adapters.len() && (#[trigger] adapter_entry(adapters[i])) is Some
                ==> adapter_entries(adapters).contains(adapter_entry(adapters[i])->0),
        forall|j: int|
            0 <= j < adapter_entries(adapters).len() ==> exists|i: int|
                0 <= i < adapters.len() && adapter_entry(adapters[i]) == Some(
                    #[trigger] adapter_entries(adapters)[j],
                ),
    decreases adapters.len(),
{
    if adapters.len() > 0 {
        let rest = adapters.drop_last();
        lemma_adapter_entries_cover(rest);
        let before = adapter_entries(rest);
        let now = adapter_entries(adapters);
        assert forall|i: int|
            0 <= i < adapters.len() && (#[trigger] adapter_entry(adapters[i])) is Some
                implies now.contains(adapter_entry(adapters[i])->0) by {
            if i < adapters.len() - 1 {
                assert(adapters[i] == rest[i]);
                assert(adapter_entry(rest[i]) is Some);
                let k = choose|k: int| 0 <= k < before.len() && before[k] == adapter_entry(rest[i])->0;
                assert(now[k] == before[k]);
            } else {
                assert(now[now.len() - 1] == adapter_entry(adapters[i])->0);
            }
        }
        assert forall|j: int| 0 <= j < now.len() implies exists|i: int|
            0 <= i < adapters.len() && adapter_entry(adapters[i]) == Some(#[trigger] now[j]) by {
            if j < before.len() {
                assert(now[j] == before[j]);
                let i = choose|i: int|
                    0 <= i < rest.len() && adapter_entry(rest[i]) == Some(before[j]);
                assert(adapters[i] == rest[i]);
            } else {
                assert(adapter_entry(adapters[adapters.len() - 1]) == Some(now[j]));
            }
        }
    }
}

} // verus!
