//! Which engines take part, and which files they are loaded from.
use crate::text::texts;
use vstd::prelude::*;

verus! {

/// An engine on a device.
#[derive(Clone, Copy, Debug, PartialEq, Eq, Structural)]
pub enum EngineKind {
    CandleCpu,
    CandleMetal,
    CandleCuda,
    BurnCpu,
    BurnWgpu,
}

/// The GPU backends that a build has.
#[derive(Clone, Copy, Debug, PartialEq, Eq, Structural)]
pub struct Backends {
    pub candle_metal: bool,
    pub candle_cuda: bool,
    pub burn_wgpu: bool,
}

/// One engine where it takes part, and none where it does not.
pub open spec fn only_if(takes_part: bool, kind: EngineKind) -> Seq<EngineKind> {
    if takes_part {
        seq![kind]
    } else {
        Seq::empty()
    }
}

/// The engines of a mode, in the order in which they are loaded. In `gpu` mode Candle runs on
/// each of its GPU backends, or on the CPU where the build has none, and Burn on its own
/// backend where there is one. In any other mode both run on the CPU.
pub open spec fn lineup(mode: Seq<char>, backends: Backends) -> Seq<EngineKind> {
    if mode == "gpu"@ {
        only_if(backends.candle_metal, EngineKind::CandleMetal) + only_if(
            backends.candle_cuda,
            EngineKind::CandleCuda,
        ) + only_if(
            !backends.candle_metal && !backends.candle_cuda,
            EngineKind::CandleCpu,
        ) + only_if(backends.burn_wgpu, EngineKind::BurnWgpu)
    } else {
        seq![EngineKind::CandleCpu, EngineKind::BurnCpu]
    }
}

/// Chooses the engines of a mode. There is always at least one.
pub fn load_engines(mode: &str, backends: Backends) -> (r: Vec<EngineKind>)
    ensures
        r@ == lineup(mode@, backends),
        r@.len() > 0,
{
    let mut r: Vec<EngineKind> = Vec::new();
    let wanted: String = mode.to_string();
    let gpu: String = "gpu".to_string();
    if wanted == gpu {
        if backends.candle_metal {
            r.push(EngineKind::CandleMetal);
        }
        if backends.candle_cuda {
            r.push(EngineKind::CandleCuda);
        }
        if !backends.candle_metal && !backends.candle_cuda {
            r.push(EngineKind::CandleCpu);
        }
        if backends.burn_wgpu {
            r.push(EngineKind::BurnWgpu);
        }
    } else {
        r.push(EngineKind::CandleCpu);
        r.push(EngineKind::BurnCpu);
    }
    assert(r@ =~= lineup(mode@, backends));
    r
}

/// No engine takes part twice.
pub proof fn lineup_has_no_duplicates(mode: Seq<char>, backends: Backends)
    ensures
        lineup(mode, backends).no_duplicates(),
{
}

/// The places, among the first `upto` engines, of those whose probe succeeded.
pub open spec fn places_working(probes: Seq<bool>, upto: int) -> Seq<usize>
    decreases upto,
{
    if upto <= 0 {
        Seq::empty()
    } else if probes[upto - 1] {
        places_working(probes, upto - 1).push((upto - 1) as usize)
    } else {
        places_working(probes, upto - 1)
    }
}

/// Keeps the engines whose probe succeeded; nothing where none did.
pub fn working_engines(probes: &Vec<bool>) -> (r: Option<Vec<usize>>)
    ensures
        r is None <==> !probes@.contains(true),
        r matches Some(kept) ==> kept@ == places_working(probes@, probes@.len() as int),
{
    let mut kept: Vec<usize> = Vec::new();
    let mut i: usize = 0;
    while i < probes.len()
        invariant
            i <= probes@.len(),
            kept@ == places_working(probes@, i as int),
            kept@.len() == 0 <==> !probes@.take(i as int).contains(true),
        decreases probes@.len() - i,
    {
        let ghost seen = probes@.take(i as int);
        assert(probes@.take(i + 1) == seen.push(probes@[i as int]));
        if probes[i] {
            kept.push(i);
            assert(probes@.take(i + 1)[i as int]);
        }
        proof {
            if seen.contains(true) {
                let k = choose|k: int| 0 <= k < seen.len() && seen[k] == true;
                assert(probes@.take(i + 1)[k] == true);
            }
        }
        i += 1;
    }
    assert(probes@.take(i as int) == probes@);
    if kept.len() == 0 {
        None
    } else {
        Some(kept)
    }
}

/// The model on the hub, and the revision it is taken at.
#[derive(Debug)]
pub struct ModelSource {
    pub id: String,
    pub revision: String,
    /// The files to fetch, in order.
    pub files: Vec<String>,
}

/// Where Candle's model comes from.
pub fn candle_source() -> (r: ModelSource)
    ensures
        r.id@ == "sentence-transformers/all-MiniLM-L6-v2"@,
        r.revision@ == "main"@,
        texts(r.files@) == seq!["config.json"@, "tokenizer.json"@, "model.safetensors"@],
{
    let r: ModelSource = ModelSource {
        id: "sentence-transformers/all-MiniLM-L6-v2".to_string(),
        revision: "main".to_string(),
        files: vec![
            "config.json".to_string(),
            "tokenizer.json".to_string(),
            "model.safetensors".to_string(),
        ],
    };
    assert(texts(r.files@) =~= seq!["config.json"@, "tokenizer.json"@, "model.safetensors"@]);
    r
}

/// Where the ONNX model comes from.
pub fn ort_source() -> (r: ModelSource)
    ensures
        r.id@ == "sentence-transformers/all-MiniLM-L6-v2"@,
        r.revision@ == "main"@,
        texts(r.files@) == seq!["onnx/model.onnx"@, "tokenizer.json"@],
{
    let r: ModelSource = ModelSource {
        id: "sentence-transformers/all-MiniLM-L6-v2".to_string(),
        revision: "main".to_string(),
        files: vec!["onnx/model.onnx".to_string(), "tokenizer.json".to_string()],
    };
    assert(texts(r.files@) =~= seq!["onnx/model.onnx"@, "tokenizer.json"@]);
    r
}

/// What is said of a file that could not be fetched.
pub fn fetch_context(file: &str) -> (r: String)
    ensures
        r@ == "fetch "@ + file@,
{
    let mut r: String = "fetch ".to_string();
    r.append(file);
    r
}

/// The engines that are kept are those whose probe succeeded, in order, and no others.
pub proof fn working_engines_are_kept(probes: Seq<bool>, upto: int)
    requires
        0 <= upto <= probes.len() <= usize::MAX,
    ensures
        places_working(probes, upto) == Seq::new(upto as nat, |i: int| i as usize).filter(
            |i: usize| probes[i as int],
        ),
    decreases upto,
{
    reveal(Seq::filter);
    if upto > 0 {
        working_engines_are_kept(probes, upto - 1);
        let all = Seq::new(upto as nat, |i: int| i as usize);
        assert(all.drop_last() =~= Seq::new((upto - 1) as nat, |i: int| i as usize));
        assert(all.last() == (upto - 1) as usize);
    }
}

/// In `gpu` mode exactly the backends that the build has take part, and Candle on the CPU where
/// it has no GPU of its own; Candle comes before Burn. In any other mode both run on the CPU.
pub proof fn backends_take_part(mode: Seq<char>, backends: Backends)
    ensures
        mode != "gpu"@ ==> lineup(mode, backends) == seq![EngineKind::CandleCpu, EngineKind::BurnCpu],
        mode == "gpu"@ ==> {
            let all = lineup(mode, backends);
            &&& all.contains(EngineKind::CandleMetal) <==> backends.candle_metal
            &&& all.contains(EngineKind::CandleCuda) <==> backends.candle_cuda
            &&& all.contains(EngineKind::CandleCpu) <==> !backends.candle_metal
                && !backends.candle_cuda
            &&& all.contains(EngineKind::BurnWgpu) <==> backends.burn_wgpu
            &&& !all.contains(EngineKind::BurnCpu)
            &&& all.len() > 0 && all[0] != EngineKind::BurnWgpu
            &&& backends.burn_wgpu ==> all.last() == EngineKind::BurnWgpu
            &&& backends.candle_metal ==> all[0] == EngineKind::CandleMetal
        },
{
    if mode == "gpu"@ {
        let all = lineup(mode, backends);
        let metal = only_if(backends.candle_metal, EngineKind::CandleMetal);
        let cuda = only_if(backends.candle_cuda, EngineKind::CandleCuda);
        let cpu = only_if(
            !backends.candle_metal && !backends.candle_cuda,
            EngineKind::CandleCpu,
        );
        let burn = only_if(backends.burn_wgpu, EngineKind::BurnWgpu);
        assert(all == metal + cuda + cpu + burn);
        if backends.candle_metal {
            assert(all[0] == EngineKind::CandleMetal);
        }
        if backends.candle_cuda {
            assert(all[metal.len() as int] == EngineKind::CandleCuda);
        }
        if !backends.candle_metal && !backends.candle_cuda {
            assert(all[0] == EngineKind::CandleCpu);
        }
        if backends.burn_wgpu {
            assert(all[all.len() - 1] == EngineKind::BurnWgpu);
        }
    }
}

} // verus!
