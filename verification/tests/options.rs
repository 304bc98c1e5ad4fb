use inference_bench::options::{
    parse_mode, result_path, single_pass_path, trial_count, value_or, versus_line,
};
use inference_bench::selection::{
    candle_source, fetch_context, load_engines, ort_source, working_engines, Backends, EngineKind,
};
use inference_bench::workload::{
    approx_tokens, batch_sizes, latency_inputs, throughput_plan, Profile,
};

fn args(v: &[&str]) -> Vec<String> {
    v.iter().map(|s| s.to_string()).collect()
}

#[test]
fn modes_are_parsed() {
    assert_eq!(parse_mode(&args(&["bench"])), "cpu");
    assert_eq!(parse_mode(&args(&[])), "cpu");
    assert_eq!(parse_mode(&args(&["bench", "gpu"])), "gpu");
    assert_eq!(parse_mode(&args(&["bench", "run"])), "cpu");
    assert_eq!(parse_mode(&args(&["bench", "run", "gpu"])), "gpu");
    assert_eq!(parse_mode(&args(&["bench", "gpu", "run"])), "gpu");
}

#[test]
fn trials_are_positive() {
    assert_eq!(trial_count(None), 10);
    assert_eq!(trial_count(Some("3".to_string())), 3);
    assert_eq!(trial_count(Some("+4".to_string())), 4);
    assert_eq!(trial_count(Some("0".to_string())), 10);
    assert_eq!(trial_count(Some("-1".to_string())), 10);
    assert_eq!(trial_count(Some("many".to_string())), 10);
}

#[test]
fn paths_and_lines_are_put_together() {
    assert_eq!(result_path("results", "cpu", "t5", "host"), "results/cpu-t5-host.json");
    assert_eq!(single_pass_path("run", "host"), "results/run-host.json");
    assert_eq!(versus_line("cpu", &args(&["a", "b"])), "mode=cpu: a vs b");
    assert_eq!(value_or(None, "results"), "results");
    assert_eq!(value_or(Some("r".to_string()), "results"), "r");
}

#[test]
fn tokens_are_words() {
    let long = latency_inputs();
    for input in &long {
        assert_eq!(approx_tokens(&input.text), input.text.split_whitespace().count());
    }
    assert_eq!(approx_tokens("Dark brown iris."), 3);
    for s in ["", " ", " a", "a ", "a  b", "\u{3000}x\ty\n"] {
        assert_eq!(approx_tokens(s), s.split_whitespace().count());
    }
}

#[test]
fn inputs_grow_longer() {
    let inputs = latency_inputs();
    let labels: Vec<&str> = inputs.iter().map(|i| i.label.as_str()).collect();
    assert_eq!(labels, vec!["short", "medium", "long"]);
    assert_eq!(inputs[0].text, "Dark brown iris.");
    assert!(inputs[2].text.starts_with(
        "Adult male with reddish-brown dorsal fur and pale ventral coloration, \
         collected near a montane stream at 1850 meters elevation; iris dark brown, \
         bill black with a yellow gape, pelage soft and dense, hind foot length 24 \
         millimeters, with worn molars indicating an older individual found in \
         primary forest understory shortly after dawn."
    ));
    assert_eq!(batch_sizes(), vec![1, 8, 16, 32, 64]);
}

#[test]
fn batches_repeat_the_corpus() {
    let corpus = args(&["x", "y", "z"]);
    let plan = throughput_plan(5, &corpus, Profile::comparison());
    assert_eq!(plan.texts, args(&["x", "y", "z", "x", "y"]));
    assert_eq!((plan.warmups, plan.reps, plan.sentences), (3, 10, 50));
    let empty = throughput_plan(2, &Vec::new(), Profile::single_pass());
    assert_eq!(empty.texts, args(&["a specimen note", "a specimen note"]));
    assert_eq!((empty.warmups, empty.reps, empty.sentences), (5, 20, 40));
}

#[test]
fn profiles_hold_their_counts() {
    let c = Profile::comparison();
    assert_eq!((c.warmup, c.latency_samples, c.batch_warmup, c.throughput_reps), (5, 80, 3, 10));
    let s = Profile::single_pass();
    assert_eq!((s.warmup, s.latency_samples, s.batch_warmup, s.throughput_reps), (20, 200, 5, 20));
    assert_eq!(Profile::new(2, 3, 1, 1).batch_warmup, 2);
}

#[test]
fn lineups_follow_the_mode() {
    let none = Backends { candle_metal: false, candle_cuda: false, burn_wgpu: false };
    let cuda = Backends { candle_metal: false, candle_cuda: true, burn_wgpu: true };
    let all = Backends { candle_metal: true, candle_cuda: true, burn_wgpu: true };
    assert_eq!(load_engines("cpu", all), vec![EngineKind::CandleCpu, EngineKind::BurnCpu]);
    assert_eq!(load_engines("other", none), vec![EngineKind::CandleCpu, EngineKind::BurnCpu]);
    assert_eq!(load_engines("gpu", none), vec![EngineKind::CandleCpu]);
    assert_eq!(load_engines("gpu", cuda), vec![EngineKind::CandleCuda, EngineKind::BurnWgpu]);
    assert_eq!(
        load_engines("gpu", all),
        vec![EngineKind::CandleMetal, EngineKind::CandleCuda, EngineKind::BurnWgpu]
    );
}

#[test]
fn only_working_engines_stay() {
    assert_eq!(working_engines(&vec![true, false, true]), Some(vec![0, 2]));
    assert_eq!(working_engines(&vec![false, false]), None);
    assert_eq!(working_engines(&Vec::new()), None);
}

#[test]
fn sources_name_their_files() {
    let c = candle_source();
    assert_eq!(c.id, "sentence-transformers/all-MiniLM-L6-v2");
    assert_eq!(c.revision, "main");
    assert_eq!(c.files, args(&["config.json", "tokenizer.json", "model.safetensors"]));
    assert_eq!(ort_source().files, args(&["onnx/model.onnx", "tokenizer.json"]));
    assert_eq!(fetch_context("config.json"), "fetch config.json");
}
