//! What the machine has, and which models suit it.

use vstd::prelude::*;
use vstd::utf8::{decode_utf8, valid_utf8};

use crate::digits::{parse_u32, parsed_u32};
use crate::models::{is_whisper_model, whisper_table};
use crate::selection::{ascending, lemma_position_added};
use crate::text::{
    ascii_lowercase, contains, has_part, is_ascii_text, law_a_text_is_cut_at_each_separator,
    law_splitting_loses_nothing, lowercase, same, split, split_on, texts, to_lowercase, trim,
    trimmed,
};

verus! {

/// Who makes a GPU.
#[derive(Debug, Clone, Copy, PartialEq, Eq, Structural)]
pub enum GpuVendor {
    Nvidia,
    Intel,
    Amd,
    Unknown,
}

/// What the models run on.
#[derive(Debug, Clone, Copy, PartialEq, Eq, Structural)]
pub enum Backend {
    Cpu,
    Cuda,
    DirectML,
}

/// A GPU.
#[derive(Debug)]
pub struct GpuInfo {
    pub name: String,
    pub vendor: GpuVendor,
    pub vram_mb: Option<u32>,
    pub cuda_capable: bool,
    pub directml_capable: bool,
}

/// A GPU as a mathematical value.
pub struct Gpu {
    pub name: Seq<char>,
    pub vendor: GpuVendor,
    pub vram_mb: Option<u32>,
    pub cuda_capable: bool,
    pub directml_capable: bool,
}

impl View for GpuInfo {
    type V = Gpu;

    open spec fn view(&self) -> Gpu {
        Gpu {
            name: self.name@,
            vendor: self.vendor,
            vram_mb: self.vram_mb,
            cuda_capable: self.cuda_capable,
            directml_capable: self.directml_capable,
        }
    }
}

/// The mathematical values of GPUs.
pub open spec fn gpus_of(v: Seq<GpuInfo>) -> Seq<Gpu> {
    Seq::new(v.len(), |i: int| v[i]@)
}

/// What the machine has, and what is recommended for it.
#[derive(Debug)]
pub struct HardwareProfile {
    pub cpu_cores: usize,
    pub total_ram_gb: u32,
    pub gpus: Vec<GpuInfo>,
    pub recommended_backend: Backend,
    pub recommended_whisper_live: String,
    pub recommended_whisper_finalize: String,
    pub recommended_llm: String,
}

/// The least video memory, in megabytes, for which CUDA is recommended.
pub const CUDA_MIN_VRAM_MB: u32 = 4096;

/// Bytes as whole gigabytes, where the count of them keeps its lowest 32 bits.
pub open spec fn gigabytes(bytes: u64) -> u32 {
    (bytes as int / 1073741824 % 4294967296) as u32
}

/// Bytes as whole gigabytes.
pub fn ram_gb(bytes: u64) -> (r: u32)
    ensures
        r == gigabytes(bytes),
{
    (bytes / 1024 / 1024 / 1024 % 4294967296) as u32
}

/// The speech models for live text and for the transcript that is kept.
pub open spec fn whisper_choice(backend: Backend, cuda_vram_mb: u32, cpu_cores: usize) -> (
    Seq<char>,
    Seq<char>,
) {
    match backend {
        Backend::Cuda => if cuda_vram_mb >= 16_000 {
            ("large-v3-turbo"@, "large-v3"@)
        } else if cuda_vram_mb >= 8_000 {
            ("medium"@, "large-v3"@)
        } else {
            ("small"@, "medium"@)
        },
        Backend::DirectML => ("base"@, "small"@),
        Backend::Cpu => if cpu_cores >= 8 {
            ("base.en"@, "medium.en"@)
        } else {
            ("base.en"@, "small.en"@)
        },
    }
}

/// The speech models for live text and for the transcript that is kept.
pub fn pick_whisper(backend: &Backend, cuda_vram_mb: u32, cpu_cores: usize) -> (r: (
    &'static str,
    &'static str,
))
    ensures
        (r.0@, r.1@) == whisper_choice(*backend, cuda_vram_mb, cpu_cores),
{
    match backend {
        Backend::Cuda => {
            if cuda_vram_mb >= 16_000 {
                ("large-v3-turbo", "large-v3")
            } else if cuda_vram_mb >= 8_000 {
                ("medium", "large-v3")
            } else {
                ("small", "medium")
            }
        },
        Backend::DirectML => ("base", "small"),
        Backend::Cpu => {
            if cpu_cores >= 8 {
                ("base.en", "medium.en")
            } else {
                ("base.en", "small.en")
            }
        },
    }
}

/// The language model.
pub open spec fn llm_choice(backend: Backend, cuda_vram_mb: u32, ram_gb: u32) -> Seq<char> {
    if backend == Backend::Cuda {
        if cuda_vram_mb >= 16_000 {
            "qwen2.5:14b"@
        } else if cuda_vram_mb >= 8_000 {
            "qwen2.5:7b"@
        } else {
            "llama3.2:3b"@
        }
    } else if ram_gb >= 32 {
        "qwen2.5:7b"@
    } else {
        "llama3.2:3b"@
    }
}

/// The language model.
pub fn pick_llm(backend: &Backend, cuda_vram_mb: u32, ram_gb: u32) -> (r: &'static str)
    ensures
        r@ == llm_choice(*backend, cuda_vram_mb, ram_gb),
{
    match backend {
        Backend::Cuda => {
            if cuda_vram_mb >= 16_000 {
                "qwen2.5:14b"
            } else if cuda_vram_mb >= 8_000 {
                "qwen2.5:7b"
            } else {
                "llama3.2:3b"
            }
        },
        _ => {
            if ram_gb >= 32 {
                "qwen2.5:7b"
            } else {
                "llama3.2:3b"
            }
        },
    }
}

/// A line of what `nvidia-smi` prints: the name and the video memory of a GPU, with a comma
/// between. A line without a comma describes none.
pub open spec fn gpu_of_line(line: Seq<char>) -> Option<Gpu> {
    let parts = split(line, ',');
    if parts.len() < 2 {
        None
    } else {
        Some(
            Gpu {
                name: trimmed(parts[0]),
                vendor: GpuVendor::Nvidia,
                vram_mb: parsed_u32(trimmed(parts[1])),
                cuda_capable: true,
                directml_capable: true,
            },
        )
    }
}

/// The GPUs that lines of what `nvidia-smi` prints describe.
pub open spec fn gpus_of_lines(lines: Seq<Seq<char>>) -> Seq<Gpu>
    decreases lines.len(),
{
    if lines.len() == 0 {
        Seq::<Gpu>::empty()
    } else {
        let front = gpus_of_lines(lines.drop_last());
        match gpu_of_line(lines.last()) {
            Some(g) => front.push(g),
            None => front,
        }
    }
}

/// Reads what `nvidia-smi` prints for the names and the video memory of the GPUs.
pub fn parse_nvidia_smi(text: &str) -> (r: Vec<GpuInfo>)
    ensures
        gpus_of(r@) == gpus_of_lines(split(text@, '\n')),
{
    let lines = split_on(text, '\n');
    let mut out: Vec<GpuInfo> = Vec::new();
    let mut i: usize = 0;
    assert(gpus_of(out@) =~= Seq::<Gpu>::empty());
    while i < lines.len()
        invariant
            i <= lines@.len(),
            gpus_of(out@) == gpus_of_lines(texts(lines@).take(i as int)),
        decreases lines@.len() - i,
    {
        assert(texts(lines@).take(i + 1).drop_last() =~= texts(lines@).take(i as int));
        let ghost before = gpus_of(out@);
        let parts = split_on(lines[i].as_str(), ',');
        assert(texts(parts@).len() == parts@.len());
        if parts.len() >= 2 {
            let name = trim(parts[0].as_str());
            let memory = trim(parts[1].as_str());
            let g = GpuInfo {
                name,
                vendor: GpuVendor::Nvidia,
                vram_mb: parse_u32(memory.as_str()),
                cuda_capable: true,
                directml_capable: true,
            };
            out.push(g);
            assert(gpus_of(out@) =~= before.push(g@));
        }
        i = i + 1;
    }
    assert(texts(lines@).take(lines@.len() as int) =~= texts(lines@));
    out
}

/// What `String::from_utf8_lossy` makes of bytes.
pub uninterp spec fn lossy_text(bytes: Seq<u8>) -> Seq<char>;

/// `String::from_utf8_lossy`: the text that bytes stand for in UTF-8. It depends on the bytes
/// alone, also where some are not UTF-8; what those are replaced by is not said.
#[verifier::external_body]
fn from_utf8_lossy(bytes: &[u8]) -> (r: String)
    ensures
        r@ == lossy_text(bytes@),
        valid_utf8(bytes@) ==> r@ == decode_utf8(bytes@),
{
    String::from_utf8_lossy(bytes).into_owned()
}

/// The GPUs that `nvidia-smi` reports: none where it fails.
pub fn query_nvidia_smi(success: bool, stdout: &[u8]) -> (r: Vec<GpuInfo>)
    ensures
        gpus_of(r@) == (if success {
            gpus_of_lines(split(lossy_text(stdout@), '\n'))
        } else {
            Seq::<Gpu>::empty()
        }),
        success && valid_utf8(stdout@) ==> gpus_of(r@) == gpus_of_lines(
            split(decode_utf8(stdout@), '\n'),
        ),
{
    if !success {
        let none: Vec<GpuInfo> = Vec::new();
        assert(gpus_of(none@) =~= Seq::<Gpu>::empty());
        return none;
    }
    let text = from_utf8_lossy(stdout);
    parse_nvidia_smi(text.as_str())
}

/// The maker whose name, or whose product's name, occurs in a text in small letters.
pub open spec fn vendor_of(n: Seq<char>) -> GpuVendor {
    if has_part(n, "nvidia"@) || has_part(n, "geforce"@) || has_part(n, "quadro"@) || has_part(
        n,
        "tesla"@,
    ) {
        GpuVendor::Nvidia
    } else if has_part(n, "intel"@) {
        GpuVendor::Intel
    } else if has_part(n, "amd"@) || has_part(n, "radeon"@) {
        GpuVendor::Amd
    } else {
        GpuVendor::Unknown
    }
}

/// The maker of a GPU whose name is given in small letters.
pub fn vendor_of_lowercase(n: &str) -> (r: GpuVendor)
    ensures
        r == vendor_of(n@),
{
    if contains(n, "nvidia") || contains(n, "geforce") || contains(n, "quadro") || contains(
        n,
        "tesla",
    ) {
        GpuVendor::Nvidia
    } else if contains(n, "intel") {
        GpuVendor::Intel
    } else if contains(n, "amd") || contains(n, "radeon") {
        GpuVendor::Amd
    } else {
        GpuVendor::Unknown
    }
}

/// The maker of a GPU, by its name.
pub fn classify_vendor(name: &str) -> (r: GpuVendor)
    ensures
        r == vendor_of(lowercase(name@)),
        is_ascii_text(name@) ==> r == vendor_of(ascii_lowercase(name@)),
{
    let n = to_lowercase(name);
    vendor_of_lowercase(n.as_str())
}

/// A video controller as the system reports it.
#[derive(Debug)]
pub struct VideoController {
    pub name: Option<String>,
    pub adapter_ram: Option<u64>,
}

/// The video memory in whole megabytes, where the count of them keeps its lowest 32 bits.
pub open spec fn vram_megabytes(adapter_ram: Option<u64>) -> Option<u32> {
    match adapter_ram {
        Some(bytes) => Some((bytes as int / 1048576 % 4294967296) as u32),
        None => None,
    }
}

/// The GPU that a video controller of this name, by this maker, is.
pub open spec fn controller_gpu(
    name: Seq<char>,
    vendor: GpuVendor,
    adapter_ram: Option<u64>,
) -> Gpu {
    Gpu {
        name,
        vendor,
        vram_mb: vram_megabytes(adapter_ram),
        cuda_capable: vendor == GpuVendor::Nvidia,
        directml_capable: vendor != GpuVendor::Unknown,
    }
}

/// The GPU that a video controller of this name, by this maker, is.
pub fn gpu_of_controller(name: String, vendor: GpuVendor, adapter_ram: Option<u64>) -> (r: GpuInfo)
    ensures
        r@ == controller_gpu(name@, vendor, adapter_ram),
{
    let vram_mb: Option<u32> = match adapter_ram {
        Some(bytes) => Some((bytes / 1024 / 1024 % 4294967296) as u32),
        None => None,
    };
    GpuInfo {
        cuda_capable: vendor == GpuVendor::Nvidia,
        directml_capable: vendor != GpuVendor::Unknown,
        name,
        vendor,
        vram_mb,
    }
}

/// The GPUs that video controllers are; one without a name is none.
pub open spec fn controller_gpus(rows: Seq<VideoController>) -> Seq<Gpu>
    decreases rows.len(),
{
    if rows.len() == 0 {
        Seq::<Gpu>::empty()
    } else {
        let front = controller_gpus(rows.drop_last());
        match rows.last().name {
            Some(name) => front.push(
                controller_gpu(
                    name@,
                    vendor_of(lowercase(name@)),
                    rows.last().adapter_ram,
                ),
            ),
            None => front,
        }
    }
}

/// The GPUs among the video controllers that the system reports.
pub fn query_wmi_gpus(rows: &Vec<VideoController>) -> (r: Vec<GpuInfo>)
    ensures
        gpus_of(r@) == controller_gpus(rows@),
{
    let mut out: Vec<GpuInfo> = Vec::new();
    let mut i: usize = 0;
    assert(gpus_of(out@) =~= Seq::<Gpu>::empty());
    while i < rows.len()
        invariant
            i <= rows@.len(),
            gpus_of(out@) == controller_gpus(rows@.take(i as int)),
        decreases rows@.len() - i,
    {
        assert(rows@.take(i + 1).drop_last() =~= rows@.take(i as int));
        let ghost before = gpus_of(out@);
        match &rows[i].name {
            Some(name) => {
                let vendor = classify_vendor(name.as_str());
                let g = gpu_of_controller(name.clone(), vendor, rows[i].adapter_ram);
                out.push(g);
                assert(gpus_of(out@) =~= before.push(g@));
            },
            None => {},
        }
        i = i + 1;
    }
    assert(rows@.take(rows@.len() as int) =~= rows@);
    out
}

/// Whether one of the GPUs has this name.
pub open spec fn has_gpu(gpus: Seq<Gpu>, name: Seq<char>) -> bool {
    exists|i: int| 0 <= i < gpus.len() && (#[trigger] gpus[i]).name == name
}

/// `first`, and behind them those of `second` of whose name there is none yet. Where there is
/// none in `first`, all of `second`.
pub open spec fn merged(first: Seq<Gpu>, second: Seq<Gpu>) -> Seq<Gpu>
    decreases second.len(),
{
    if first.len() == 0 {
        second
    } else if second.len() == 0 {
        first
    } else {
        let front = merged(first, second.drop_last());
        if has_gpu(front, second.last().name) {
            front
        } else {
            front.push(second.last())
        }
    }
}

fn any_has_name(gpus: &Vec<GpuInfo>, name: &String) -> (r: bool)
    ensures
        r == has_gpu(gpus_of(gpus@), name@),
{
    let mut i: usize = 0;
    while i < gpus.len()
        invariant
            i <= gpus@.len(),
            forall|k: int| 0 <= k < i ==> (#[trigger] gpus_of(gpus@)[k]).name != name@,
        decreases gpus@.len() - i,
    {
        if same(gpus[i].name.as_str(), name.as_str()) {
            assert(gpus_of(gpus@)[i as int].name == name@);
            return true;
        }
        i = i + 1;
    }
    false
}

/// The GPUs that two queries report together: what the first reports counts, and a GPU that
/// only the second reports is added.
pub fn merge_gpus(first: Vec<GpuInfo>, second: Vec<GpuInfo>) -> (r: Vec<GpuInfo>)
    ensures
        gpus_of(r@) == merged(gpus_of(first@), gpus_of(second@)),
{
    if first.len() == 0 {
        return second;
    }
    let ghost base = gpus_of(first@);
    let ghost more = gpus_of(second@);
    let ghost given = second@;
    let mut out = first;
    let mut rest = second;
    let n: usize = rest.len();
    let mut i: usize = 0;
    assert(given.skip(0) =~= given);
    assert(more.take(0) =~= Seq::<Gpu>::empty());
    while i < n
        invariant
            i <= n == given.len(),
            base.len() > 0,
            more == gpus_of(given),
            rest@ == given.skip(i as int),
            gpus_of(out@) == merged(base, more.take(i as int)),
        decreases n - i,
    {
        let g = rest.remove(0);
        assert(g == given[i as int]);
        assert(rest@ =~= given.skip(i + 1));
        assert(more.take(i + 1).drop_last() =~= more.take(i as int));
        assert(more.take(i + 1).last() == g@);
        let ghost before = gpus_of(out@);
        if !any_has_name(&out, &g.name) {
            out.push(g);
            assert(gpus_of(out@) =~= before.push(g@));
        }
        i = i + 1;
    }
    assert(more.take(n as int) =~= more);
    out
}

/// Whether a GPU runs CUDA and has the video memory that it takes.
pub open spec fn suits_cuda(g: Gpu) -> bool {
    g.cuda_capable && (g.vram_mb matches Some(v) && v >= CUDA_MIN_VRAM_MB)
}

/// What is recommended to run the models on: CUDA if a GPU suits it, else DirectML if a GPU has
/// it, else the CPU.
pub open spec fn backend_choice(gpus: Seq<Gpu>) -> Backend {
    if exists|i: int| 0 <= i < gpus.len() && suits_cuda(#[trigger] gpus[i]) {
        Backend::Cuda
    } else if exists|i: int| 0 <= i < gpus.len() && (#[trigger] gpus[i]).directml_capable {
        Backend::DirectML
    } else {
        Backend::Cpu
    }
}

/// What is recommended to run the models on.
pub fn pick_backend(gpus: &Vec<GpuInfo>) -> (r: Backend)
    ensures
        r == backend_choice(gpus_of(gpus@)),
{
    let ghost all = gpus_of(gpus@);
    let mut directml = false;
    let mut i: usize = 0;
    while i < gpus.len()
        invariant
            i <= gpus@.len(),
            all == gpus_of(gpus@),
            forall|k: int| 0 <= k < i ==> !suits_cuda(#[trigger] all[k]),
            directml == (exists|k: int| 0 <= k < i && (#[trigger] all[k]).directml_capable),
        decreases gpus@.len() - i,
    {
        let vram: u32 = match gpus[i].vram_mb {
            Some(v) => v,
            None => 0,
        };
        assert(all[i as int] == gpus@[i as int]@);
        if gpus[i].cuda_capable && vram >= CUDA_MIN_VRAM_MB {
            assert(suits_cuda(all[i as int]));
            return Backend::Cuda;
        }
        if gpus[i].directml_capable {
            directml = true;
        }
        i = i + 1;
    }
    if directml {
        Backend::DirectML
    } else {
        Backend::Cpu
    }
}

/// The video memory that counts for CUDA: the most that a GPU with CUDA is known to have, or
/// none.
pub open spec fn cuda_vram(gpus: Seq<Gpu>) -> u32
    decreases gpus.len(),
{
    if gpus.len() == 0 {
        0
    } else {
        let most = cuda_vram(gpus.drop_last());
        match gpus.last().vram_mb {
            Some(v) => if gpus.last().cuda_capable && v > most {
                v
            } else {
                most
            },
            None => most,
        }
    }
}

/// The video memory that counts for CUDA.
pub fn max_cuda_vram(gpus: &Vec<GpuInfo>) -> (r: u32)
    ensures
        r == cuda_vram(gpus_of(gpus@)),
{
    let ghost all = gpus_of(gpus@);
    let mut most: u32 = 0;
    let mut i: usize = 0;
    while i < gpus.len()
        invariant
            i <= gpus@.len(),
            all == gpus_of(gpus@),
            most == cuda_vram(all.take(i as int)),
        decreases gpus@.len() - i,
    {
        assert(all.take(i + 1).drop_last() =~= all.take(i as int));
        assert(all.take(i + 1).last() == gpus@[i as int]@);
        match gpus[i].vram_mb {
            Some(v) => {
                if gpus[i].cuda_capable && v > most {
                    most = v;
                }
            },
            None => {},
        }
        i = i + 1;
    }
    assert(all.take(gpus@.len() as int) =~= all);
    most
}

/// The profile of a machine with these GPUs, as the two queries report them.
pub fn detect(
    cpu_cores: usize,
    total_memory_bytes: u64,
    nvidia: Vec<GpuInfo>,
    wmi: Vec<GpuInfo>,
) -> (r: HardwareProfile)
    ensures
        r.cpu_cores == cpu_cores,
        r.total_ram_gb == gigabytes(total_memory_bytes),
        gpus_of(r.gpus@) == merged(gpus_of(nvidia@), gpus_of(wmi@)),
        r.recommended_backend == backend_choice(gpus_of(r.gpus@)),
        (r.recommended_whisper_live@, r.recommended_whisper_finalize@) == whisper_choice(
            r.recommended_backend,
            cuda_vram(gpus_of(r.gpus@)),
            cpu_cores,
        ),
        r.recommended_llm@ == llm_choice(
            r.recommended_backend,
            cuda_vram(gpus_of(r.gpus@)),
            r.total_ram_gb,
        ),
{
    let total_ram_gb: u32 = ram_gb(total_memory_bytes);
    let gpus = merge_gpus(nvidia, wmi);
    let recommended_backend = pick_backend(&gpus);
    let vram: u32 = max_cuda_vram(&gpus);
    let (live, finalize) = pick_whisper(&recommended_backend, vram, cpu_cores);
    let llm = pick_llm(&recommended_backend, vram, total_ram_gb);
    HardwareProfile {
        cpu_cores,
        total_ram_gb,
        gpus,
        recommended_backend,
        recommended_whisper_live: live.to_owned(),
        recommended_whisper_finalize: finalize.to_owned(),
        recommended_llm: llm.to_owned(),
    }
}

/// The profile of the machine, as it was last detected.
#[derive(Debug)]
pub struct HardwareCache {
    profile: Option<HardwareProfile>,
}

impl HardwareCache {
    /// The profile that was detected last, if any.
    pub closed spec fn cached(&self) -> Option<HardwareProfile> {
        self.profile
    }

    /// Nothing has been detected yet.
    pub fn new() -> (r: Self)
        ensures
            r.cached() is None,
    {
        HardwareCache { profile: None }
    }

    /// The profile that was detected last. Where there is one, the machine is not looked at
    /// again.
    pub fn get(&self) -> (r: Option<&HardwareProfile>)
        ensures
            match r {
                Some(p) => self.cached() == Some(*p),
                None => self.cached() is None,
            },
    {
        match &self.profile {
            Some(p) => Some(p),
            None => None,
        }
    }

    /// Takes note of what has been detected now, in place of what was before.
    pub fn put(&mut self, profile: HardwareProfile)
        ensures
            final(self).cached() == Some(profile),
    {
        self.profile = Some(profile);
    }
}

/// Every speech model that is recommended is one that there is.
pub proof fn law_recommended_models_exist(backend: Backend, cuda_vram_mb: u32, cpu_cores: usize)
    ensures
        is_whisper_model(whisper_choice(backend, cuda_vram_mb, cpu_cores).0),
        is_whisper_model(whisper_choice(backend, cuda_vram_mb, cpu_cores).1),
{
    let t = whisper_table();
    assert(t[2].0 == "base.en"@);
    assert(t[3].0 == "base"@);
    assert(t[4].0 == "small.en"@);
    assert(t[5].0 == "small"@);
    assert(t[6].0 == "medium.en"@);
    assert(t[7].0 == "medium"@);
    assert(t[8].0 == "large-v3"@);
    assert(t[9].0 == "large-v3-turbo"@);
}

proof fn lemma_cuda_vram_is_the_most(gpus: Seq<Gpu>)
    ensures
        forall|i: int|
            0 <= i < gpus.len() && (#[trigger] gpus[i]).cuda_capable ==> (
            gpus[i].vram_mb matches Some(v) ==> v <= cuda_vram(gpus)),
    decreases gpus.len(),
{
    if gpus.len() > 0 {
        let front = gpus.drop_last();
        lemma_cuda_vram_is_the_most(front);
        assert forall|i: int| 0 <= i < gpus.len() && (#[trigger] gpus[i]).cuda_capable implies (
        gpus[i].vram_mb matches Some(v) ==> v <= cuda_vram(gpus)) by {
            if i < front.len() {
                assert(front[i] == gpus[i]);
            }
        }
    }
}

/// Where CUDA is recommended, a GPU has the video memory for it, and the video memory by which
/// models are picked is at least that.
pub proof fn law_cuda_has_the_memory_it_takes(gpus: Seq<Gpu>)
    requires
        backend_choice(gpus) == Backend::Cuda,
    ensures
        cuda_vram(gpus) >= CUDA_MIN_VRAM_MB,
{
    lemma_cuda_vram_is_the_most(gpus);
}

/// A GPU that the first query reports stays as it is reported there, and no GPU is lost.
pub proof fn law_merging_loses_no_gpu(first: Seq<Gpu>, second: Seq<Gpu>)
    ensures
        first.is_prefix_of(merged(first, second)),
        forall|i: int|
            0 <= i < second.len() ==> has_gpu(merged(first, second), (#[trigger] second[i]).name),
    decreases second.len(),
{
    let all = merged(first, second);
    if first.len() == 0 {
        assert(first =~= all.take(0));
        assert forall|i: int| 0 <= i < second.len() implies has_gpu(
            all,
            (#[trigger] second[i]).name,
        ) by {
            assert(all[i].name == second[i].name);
        }
    } else if second.len() == 0 {
        assert(first =~= all.take(first.len() as int));
    } else {
        let front = second.drop_last();
        let before = merged(first, front);
        law_merging_loses_no_gpu(first, front);
        assert(first =~= all.take(first.len() as int)) by {
            assert(first =~= before.take(first.len() as int));
        }
        assert forall|i: int| 0 <= i < second.len() implies has_gpu(
            all,
            (#[trigger] second[i]).name,
        ) by {
            if i < front.len() {
                assert(front[i] == second[i]);
                let k = choose|k: int|
                    0 <= k < before.len() && (#[trigger] before[k]).name == second[i].name;
                assert(all[k] == before[k]);
            } else if !has_gpu(before, second.last().name) {
                assert(all[before.len() as int] == second.last());
            }
        }
    }
}

/// With CUDA the models go by the video memory, and the larger ones take 16 and 8 gigabytes of
/// it. Without, the speech models go by the cores, the language model by the main memory, and the
/// video memory does not matter.
pub proof fn law_models_suit_the_memory(vram: u32, other: u32, cores: usize, ram: u32)
    ensures
        vram >= 16000 ==> whisper_choice(Backend::Cuda, vram, cores) == ("large-v3-turbo"@, "large-v3"@)
            && llm_choice(Backend::Cuda, vram, ram) == "qwen2.5:14b"@,
        8000 <= vram < 16000 ==> whisper_choice(Backend::Cuda, vram, cores) == (
            "medium"@,
            "large-v3"@,
        ) && llm_choice(Backend::Cuda, vram, ram) == "qwen2.5:7b"@,
        vram < 8000 ==> whisper_choice(Backend::Cuda, vram, cores) == ("small"@, "medium"@)
            && llm_choice(Backend::Cuda, vram, ram) == "llama3.2:3b"@,
        whisper_choice(Backend::DirectML, vram, cores) == ("base"@, "small"@),
        whisper_choice(Backend::Cpu, vram, cores) == whisper_choice(Backend::Cpu, other, cores),
        whisper_choice(Backend::Cpu, vram, cores).0 == "base.en"@,
        cores >= 8 ==> whisper_choice(Backend::Cpu, vram, cores).1 == "medium.en"@,
        cores < 8 ==> whisper_choice(Backend::Cpu, vram, cores).1 == "small.en"@,
        llm_choice(Backend::Cpu, vram, ram) == llm_choice(Backend::DirectML, other, ram),
        ram >= 32 ==> llm_choice(Backend::Cpu, vram, ram) == "qwen2.5:7b"@,
        ram < 32 ==> llm_choice(Backend::Cpu, vram, ram) == "llama3.2:3b"@,
{
}

/// A line describes a GPU by what is ahead of its first comma, the name, and by what follows up to
/// the next, the video memory; what comes after that does not matter. A line without a comma
/// describes none.
pub proof fn law_a_line_names_a_gpu_and_its_memory(
    name: Seq<char>,
    memory: Seq<char>,
    rest: Seq<char>,
)
    requires
        !name.contains(','),
        !memory.contains(','),
    ensures
        gpu_of_line(name) is None,
        gpu_of_line(name.push(',') + memory) is Some,
        gpu_of_line(name.push(',') + memory).unwrap().name == trimmed(name),
        gpu_of_line(name.push(',') + memory).unwrap().vram_mb == parsed_u32(trimmed(memory)),
        gpu_of_line(name.push(',') + memory).unwrap().vendor == GpuVendor::Nvidia,
        gpu_of_line(name.push(',') + memory).unwrap().cuda_capable,
        gpu_of_line(name.push(',') + memory).unwrap().directml_capable,
        gpu_of_line(name.push(',') + (memory.push(',') + rest)) == gpu_of_line(
            name.push(',') + memory,
        ),
{
    law_a_text_is_cut_at_each_separator(name, memory, ',');
    law_a_text_is_cut_at_each_separator(memory, rest, ',');
    law_a_text_is_cut_at_each_separator(name, memory.push(',') + rest, ',');
    let one = split(name.push(',') + memory, ',');
    let more = split(name.push(',') + (memory.push(',') + rest), ',');
    assert(one[0] == name && one[1] == memory);
    assert(more[0] == name && more[1] == memory);
}

/// The GPUs are those of the lines with a comma, one for each, in the order of the lines.
pub proof fn law_each_line_with_a_comma_is_a_gpu(lines: Seq<Seq<char>>)
    ensures
        ({
            let with = lines.filter(|l: Seq<char>| l.contains(','));
            &&& gpus_of_lines(lines).len() == with.len()
            &&& forall|i: int|
                0 <= i < with.len() ==> Some(#[trigger] gpus_of_lines(lines)[i]) == gpu_of_line(
                    with[i],
                )
        }),
    decreases lines.len(),
{
    reveal(Seq::filter);
    let has = |l: Seq<char>| l.contains(',');
    if lines.len() > 0 {
        let front = lines.drop_last();
        law_each_line_with_a_comma_is_a_gpu(front);
        let l = lines.last();
        if l.contains(',') {
            lemma_first_comma(l);
        } else {
            law_a_text_is_cut_at_each_separator(l, l, ',');
        }
        let with = lines.filter(has);
        assert forall|i: int| 0 <= i < with.len() implies Some(
            #[trigger] gpus_of_lines(lines)[i],
        ) == gpu_of_line(with[i]) by {
            if i < front.filter(has).len() {
                assert(with[i] == front.filter(has)[i]);
                assert(gpus_of_lines(lines)[i] == gpus_of_lines(front)[i]);
            }
        }
    }
}

proof fn lemma_first_comma(l: Seq<char>)
    requires
        l.contains(','),
    ensures
        gpu_of_line(l) is Some,
{
    let i = l.index_of_first(',').unwrap();
    l.index_of_first_ensures(',');
    let name = l.take(i);
    let rest = l.skip(i + 1);
    assert(!name.contains(',')) by {
        if name.contains(',') {
            let k = choose|k: int| 0 <= k < name.len() && name[k] == ',';
            assert(l[k] == ',');
        }
    }
    law_a_text_is_cut_at_each_separator(name, rest, ',');
    assert(name.push(',') + rest =~= l);
    law_splitting_loses_nothing(rest, ',');
    let parts = split(l, ',');
    assert(parts.len() >= 2);
}

/// The GPUs are the video controllers that have a name, one for each, in their order: under that
/// name, with CUDA if they are made by NVIDIA, with DirectML if it is known who makes them, and
/// with all whole megabytes of their memory.
pub proof fn law_each_named_controller_is_a_gpu(rows: Seq<VideoController>)
    ensures
        ({
            let named = rows.filter(|r: VideoController| r.name is Some);
            &&& controller_gpus(rows).len() == named.len()
            &&& forall|i: int|
                0 <= i < named.len() ==> {
                    let g = #[trigger] controller_gpus(rows)[i];
                    &&& g.name == named[i].name.unwrap()@
                    &&& g.vendor == vendor_of(lowercase(named[i].name.unwrap()@))
                    &&& g.cuda_capable <==> g.vendor == GpuVendor::Nvidia
                    &&& g.directml_capable <==> g.vendor != GpuVendor::Unknown
                    &&& g.vram_mb is Some <==> named[i].adapter_ram is Some
                    &&& named[i].adapter_ram matches Some(bytes) ==> bytes
                        < 0x10_0000_0000_0000 ==> g.vram_mb.unwrap() * 1048576 <= bytes < (
                    g.vram_mb.unwrap() + 1) * 1048576
                }
        }),
    decreases rows.len(),
{
    reveal(Seq::filter);
    let keep = |r: VideoController| r.name is Some;
    if rows.len() > 0 {
        let front = rows.drop_last();
        law_each_named_controller_is_a_gpu(front);
        let named = rows.filter(keep);
        let before = front.filter(keep);
        assert forall|i: int| 0 <= i < named.len() implies ({
            let g = #[trigger] controller_gpus(rows)[i];
            &&& g.name == named[i].name.unwrap()@
            &&& g.vendor == vendor_of(lowercase(named[i].name.unwrap()@))
            &&& g.cuda_capable <==> g.vendor == GpuVendor::Nvidia
            &&& g.directml_capable <==> g.vendor != GpuVendor::Unknown
            &&& g.vram_mb is Some <==> named[i].adapter_ram is Some
            &&& named[i].adapter_ram matches Some(bytes) ==> bytes < 0x10_0000_0000_0000
                ==> g.vram_mb.unwrap() * 1048576 <= bytes < (g.vram_mb.unwrap() + 1) * 1048576
        }) by {
            if i < before.len() {
                assert(named[i] == before[i]);
                assert(controller_gpus(rows)[i] == controller_gpus(front)[i]);
            }
        }
    }
}

/// Main memory counts in whole gigabytes.
pub proof fn law_memory_counts_in_whole_gigabytes(bytes: u64)
    requires
        bytes < 0x4000_0000_0000_0000,
    ensures
        gigabytes(bytes) * 1073741824 <= bytes < (gigabytes(bytes) + 1) * 1073741824,
{
}

/// Whoever makes a GPU is known by what its name holds: NVIDIA by its own name or one of three of
/// its products, Intel by its own where none of those is in it, and AMD by its own or that of one
/// product where none of the others is.
pub proof fn law_makers_are_known_by_the_name(n: Seq<char>)
    ensures
        vendor_of(n) == GpuVendor::Nvidia <==> has_part(n, "nvidia"@) || has_part(n, "geforce"@)
            || has_part(n, "quadro"@) || has_part(n, "tesla"@),
        vendor_of(n) == GpuVendor::Intel <==> vendor_of(n) != GpuVendor::Nvidia && has_part(
            n,
            "intel"@,
        ),
        vendor_of(n) == GpuVendor::Amd <==> vendor_of(n) != GpuVendor::Nvidia && vendor_of(n)
            != GpuVendor::Intel && (has_part(n, "amd"@) || has_part(n, "radeon"@)),
{
}

/// CUDA is recommended if and only if a GPU runs it and is known to have 4 gigabytes, and the CPU
/// only where there is neither that nor a GPU with DirectML.
pub proof fn law_cuda_takes_four_gigabytes(gpus: Seq<Gpu>)
    ensures
        backend_choice(gpus) == Backend::Cuda <==> exists|i: int|
            0 <= i < gpus.len() && (#[trigger] gpus[i]).cuda_capable && gpus[i].vram_mb is Some
                && gpus[i].vram_mb.unwrap() >= 4096,
        backend_choice(gpus) == Backend::Cpu <==> forall|i: int|
            0 <= i < gpus.len() ==> !(#[trigger] gpus[i]).directml_capable && !(gpus[i].cuda_capable
                && gpus[i].vram_mb is Some && gpus[i].vram_mb.unwrap() >= 4096),
{
    if exists|i: int|
        0 <= i < gpus.len() && (#[trigger] gpus[i]).cuda_capable && gpus[i].vram_mb is Some
            && gpus[i].vram_mb.unwrap() >= 4096 {
        let i = choose|i: int|
            0 <= i < gpus.len() && (#[trigger] gpus[i]).cuda_capable && gpus[i].vram_mb is Some
                && gpus[i].vram_mb.unwrap() >= 4096;
        assert(suits_cuda(gpus[i]));
    }
    if backend_choice(gpus) == Backend::Cuda {
        let i = choose|i: int| 0 <= i < gpus.len() && suits_cuda(#[trigger] gpus[i]);
        assert(gpus[i].vram_mb is Some);
    }
    if backend_choice(gpus) == Backend::Cpu {
        assert forall|i: int| 0 <= i < gpus.len() implies !(#[trigger] gpus[i]).directml_capable
            && !(gpus[i].cuda_capable && gpus[i].vram_mb is Some && gpus[i].vram_mb.unwrap()
            >= 4096) by {
            assert(!suits_cuda(gpus[i]));
        }
    }
}

/// The video memory that counts is that of a GPU with CUDA, and none of them has more.
pub proof fn law_the_largest_video_memory_counts(gpus: Seq<Gpu>)
    ensures
        forall|i: int|
            0 <= i < gpus.len() && (#[trigger] gpus[i]).cuda_capable && gpus[i].vram_mb is Some
                ==> gpus[i].vram_mb.unwrap() <= cuda_vram(gpus),
        cuda_vram(gpus) == 0 || exists|i: int|
            0 <= i < gpus.len() && (#[trigger] gpus[i]).cuda_capable && gpus[i].vram_mb == Some(
                cuda_vram(gpus),
            ),
    decreases gpus.len(),
{
    lemma_cuda_vram_is_the_most(gpus);
    if gpus.len() > 0 {
        let front = gpus.drop_last();
        law_the_largest_video_memory_counts(front);
        if cuda_vram(gpus) != 0 {
            if cuda_vram(gpus) == cuda_vram(front) {
                let i = choose|i: int|
                    0 <= i < front.len() && (#[trigger] front[i]).cuda_capable && front[i].vram_mb
                        == Some(cuda_vram(front));
                assert(gpus[i] == front[i]);
            } else {
                assert(gpus[gpus.len() - 1].cuda_capable);
            }
        }
    }
}

/// Where the first query reports any GPU, one of the second is added exactly if its name is not
/// among those of the first nor among those that the second reports ahead of it; where it reports
/// none, all of the second count as they are.
pub proof fn law_only_new_gpus_are_added(first: Seq<Gpu>, second: Seq<Gpu>) -> (p: Seq<int>)
    ensures
        first.len() == 0 ==> merged(first, second) == second,
        first.len() > 0 ==> {
            &&& ascending(p)
            &&& merged(first, second).len() == first.len() + p.len()
            &&& forall|k: int|
                0 <= k < p.len() ==> merged(first, second)[first.len() + k] == second[#[trigger] p[k]]
            &&& forall|i: int| #[trigger]
                p.contains(i) <==> 0 <= i < second.len() && !has_gpu(first, second[i].name)
                    && !has_gpu(second.take(i), second[i].name)
        },
{
    if first.len() == 0 {
        Seq::<int>::empty()
    } else {
        assert(second.take(second.len() as int) =~= second);
        lemma_added(first, second, second.len() as int)
    }
}

proof fn lemma_added(first: Seq<Gpu>, second: Seq<Gpu>, n: int) -> (p: Seq<int>)
    requires
        first.len() > 0,
        0 <= n <= second.len(),
    ensures
        ascending(p),
        merged(first, second.take(n)).len() == first.len() + p.len(),
        first == merged(first, second.take(n)).take(first.len() as int),
        forall|k: int|
            0 <= k < p.len() ==> merged(first, second.take(n))[first.len() + k] == second[#[trigger] p[k]],
        forall|i: int| #[trigger]
            p.contains(i) <==> 0 <= i < n && !has_gpu(first, second[i].name) && !has_gpu(
                second.take(i),
                second[i].name,
            ),
    decreases n,
{
    let s = second.take(n);
    let all = merged(first, s);
    if n == 0 {
        assert(first =~= all.take(first.len() as int));
        Seq::<int>::empty()
    } else {
        let m = n - 1;
        let q = lemma_added(first, second, m);
        let f = second.take(m);
        assert(s.drop_last() =~= f);
        let before = merged(first, f);
        let name = second[m].name;
        assert(s.last() == second[m]);
        law_merging_loses_no_gpu(first, f);
        assert(has_gpu(before, name) <==> has_gpu(first, name) || has_gpu(f, name)) by {
            if has_gpu(first, name) {
                let i = choose|i: int| 0 <= i < first.len() && (#[trigger] first[i]).name == name;
                assert(before.take(first.len() as int)[i] == first[i]);
                assert(before[i] == first[i]);
            }
            if has_gpu(f, name) {
                let i = choose|i: int| 0 <= i < f.len() && (#[trigger] f[i]).name == name;
                assert(has_gpu(before, f[i].name));
            }
            if has_gpu(before, name) {
                let i = choose|i: int| 0 <= i < before.len() && (#[trigger] before[i]).name == name;
                if i < first.len() {
                    assert(before.take(first.len() as int)[i] == first[i]);
                    assert(first[i].name == name);
                } else {
                    let k = i - first.len();
                    assert(q.contains(q[k]));
                    assert(before[first.len() + k] == second[q[k]]);
                    assert(f[q[k]].name == name);
                }
            }
        }
        if has_gpu(before, name) {
            assert(all == before);
            q
        } else {
            assert(all == before.push(second[m]));
            assert(first =~= all.take(first.len() as int)) by {
                assert(first =~= before.take(first.len() as int));
            }
            lemma_position_added(q, m);
            let p = q.push(m);
            assert forall|k: int| 0 <= k < p.len() implies all[first.len() + k] == second[
                #[trigger] p[k]] by {
                if k < q.len() {
                    assert(p[k] == q[k]);
                    assert(before[first.len() + k] == second[q[k]]);
                }
            }
            p
        }
    }
}

} // verus!
