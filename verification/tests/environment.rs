use inference_bench::environment::{
    accept_output, capture_env, capture_single_pass_env, command_output, cpu_brand, epoch_stamp,
    model_name, stamp_of, Probe,
};

#[test]
fn stamps_count_seconds() {
    assert_eq!(stamp_of(Some(1_700_000_000)), "t1700000000");
    assert_eq!(stamp_of(Some(0)), "t0");
    assert_eq!(stamp_of(None), "t0");
}

#[test]
fn stamps_sort_while_digits_last() {
    assert!(stamp_of(Some(1_699_999_999)) < stamp_of(Some(1_700_000_000)));
    assert!(stamp_of(Some(1)) < stamp_of(Some(10)));
    assert!(stamp_of(Some(9)) > stamp_of(Some(10)));
    assert_ne!(stamp_of(Some(9)), stamp_of(Some(10)));
}

#[test]
fn the_clock_gives_a_stamp() {
    let before = std::time::SystemTime::now()
        .duration_since(std::time::UNIX_EPOCH)
        .unwrap()
        .as_secs();
    let stamp = epoch_stamp();
    assert!(stamp.starts_with('t'));
    let seconds: u64 = stamp[1..].parse().unwrap();
    assert!(seconds >= before && seconds < before + 60);
}

#[test]
fn output_is_trimmed_and_not_empty() {
    assert_eq!(accept_output(true, "  rustc 1.80\n"), Some("rustc 1.80".to_string()));
    assert_eq!(accept_output(true, " \n\t"), None);
    assert_eq!(accept_output(false, "rustc"), None);
}

#[test]
fn raw_output_is_decoded() {
    assert_eq!(command_output(true, b" host\n"), Some("host".to_string()));
    assert_eq!(command_output(true, "é\n".as_bytes()), Some("é".to_string()));
    assert_eq!(command_output(true, b"a\xffb"), Some("a\u{fffd}b".to_string()));
    assert_eq!(command_output(true, b""), None);
    assert_eq!(command_output(false, b"host"), None);
}

#[test]
fn model_names_are_found() {
    let info = "processor\t: 0\nvendor_id\t: X\nmodel name\t: AMD EPYC 7B13\r\nmodel name: other\n";
    assert_eq!(model_name(info), Some("AMD EPYC 7B13".to_string()));
    assert_eq!(model_name("model name : a : b"), Some("a".to_string()));
    assert_eq!(model_name("model name:"), Some("".to_string()));
    assert_eq!(model_name("model name\nmodel name: x\n"), None);
    assert_eq!(model_name(" model name: x\n"), None);
    assert_eq!(model_name(""), None);
    assert_eq!(model_name("\n\nmodel name:\tx\n\n"), Some("x".to_string()));
    assert_eq!(model_name("model nam\ne: x"), None);
}

#[test]
fn brands_fall_back() {
    let info = Some("model name : Xeon\n".to_string());
    assert_eq!(cpu_brand(Some("Apple M2".to_string()), info.clone(), "x86_64"), "Apple M2");
    assert_eq!(cpu_brand(None, info, "x86_64"), "Xeon");
    assert_eq!(cpu_brand(None, Some("processor : 0\n".to_string()), "x86_64"), "x86_64");
    assert_eq!(cpu_brand(None, None, "aarch64"), "aarch64");
    let blank = Some("model name\t: \nmodel name\t: Xeon\n".to_string());
    assert_eq!(cpu_brand(None, blank.clone(), "x86_64"), "x86_64");
    assert_eq!(cpu_brand(Some(" ".to_string()), blank, "x86_64"), "x86_64");
    assert_eq!(cpu_brand(Some(" M2 ".to_string()), None, "x86_64"), "M2");
}

fn probe() -> Probe {
    Probe {
        cpu: "Xeon".to_string(),
        cores: Some(8),
        os: "linux".to_string(),
        arch: "x86_64".to_string(),
        rustc: Some("rustc 1.80".to_string()),
        rayon_threads: Some("1".to_string()),
        power: Some("Now drawing from 'AC Power'".to_string()),
    }
}

#[test]
fn environments_are_captured() {
    let e = capture_env(probe());
    assert_eq!(e.cpu, "Xeon");
    assert_eq!(e.cores, 8);
    assert_eq!(e.os, "linux x86_64");
    assert_eq!(e.rustc, "rustc 1.80");
    assert_eq!(e.rayon_threads, "1");
    assert!(e.on_ac_power);
    assert_eq!(e.candle_version, "0.9");
    assert_eq!(e.burn_version, "0.21");
    assert_eq!(e.ort_version, "none");
}

#[test]
fn missing_answers_have_stand_ins() {
    let mut p = probe();
    p.cores = None;
    p.rustc = None;
    p.rayon_threads = None;
    p.power = None;
    let e = capture_env(p);
    assert_eq!(e.cores, 0);
    assert_eq!(e.rustc, "");
    assert_eq!(e.rayon_threads, "unset");
    assert!(!e.on_ac_power);
    let mut q = probe();
    q.power = Some("Now drawing from 'Battery Power'".to_string());
    assert!(!capture_env(q).on_ac_power);
    let s = capture_single_pass_env(probe());
    assert_eq!(s.os, "linux x86_64");
    assert_eq!(s.burn_version, "0.21");
}
