use a3s_apofasi::cli::{parse_common, parse_count, parse_device, parse_suite, parse_usize};
use a3s_apofasi::infer::device::DeviceRequest;

fn args(list: &[&str]) -> Vec<String> {
    list.iter().map(|s| s.to_string()).collect()
}

#[test]
fn parse_usize_matches_std() {
    for raw in ["0", "42", "+7", "007", "", "+", "-1", "1a", " 1", "18446744073709551615", "18446744073709551616", "99999999999999999999999"] {
        assert_eq!(parse_usize(raw), raw.parse::<usize>().ok(), "raw={raw}");
    }
}

#[test]
fn parse_count_needs_a_positive_integer() {
    assert_eq!(parse_count("3", "--iters"), Ok(3));
    assert_eq!(
        parse_count("0", "--iters"),
        Err("--iters must be a positive integer".to_string())
    );
    assert_eq!(
        parse_count("x", "--warmup"),
        Err("--warmup must be a positive integer".to_string())
    );
}

#[test]
fn common_defaults_and_flags() {
    let o = parse_common(&args(&[]), Some("/env".into())).unwrap();
    assert_eq!(o.checkpoint.as_deref(), Some("/env"));
    assert_eq!(o.device, DeviceRequest::Auto);
    assert_eq!((o.lexical, o.json, o.iters, o.warmup), (false, false, 20, 3));
    assert_eq!(o.case, "smoke");
    let o = parse_common(
        &args(&["--lexical", "--json", "--case", "triage", "--checkpoint", "/c", "--device", "cpu", "--iters", "5", "--warmup", "0"]),
        None,
    )
    .unwrap();
    assert_eq!(o.checkpoint.as_deref(), Some("/c"));
    assert_eq!(o.device, DeviceRequest::Cpu);
    assert_eq!((o.lexical, o.json, o.iters, o.warmup), (true, true, 5, 0));
    assert_eq!(o.case, "triage");
}

#[test]
fn common_flag_errors() {
    assert_eq!(parse_common(&args(&["--case"]), None).unwrap_err(), "--case needs a value");
    assert_eq!(parse_common(&args(&["--device", "tpu"]), None).unwrap_err(), "unknown device tpu");
    assert_eq!(parse_common(&args(&["--iters", "many"]), None).unwrap_err(), "--iters must be an integer");
    assert_eq!(parse_common(&args(&["--fast"]), None).unwrap_err(), "unknown flag --fast");
}

#[test]
fn suite_flags() {
    let o = parse_suite(&args(&["--cases", "c.json", "--iters", "4"]), Some("/b".into())).unwrap();
    assert_eq!(o.cases, "c.json");
    assert_eq!(o.checkpoint, "/b");
    assert_eq!((o.warmup, o.iters), (1, 4));
    assert_eq!(
        parse_suite(&args(&["--checkpoint", "/b"]), None).unwrap_err(),
        "suite requires --cases FILE"
    );
    assert_eq!(
        parse_suite(&args(&["--cases", "c.json"]), None).unwrap_err(),
        "suite requires APOFASI_CHECKPOINT or --checkpoint"
    );
    assert_eq!(
        parse_suite(&args(&["--warmup", "0"]), None).unwrap_err(),
        "--warmup must be a positive integer"
    );
    assert_eq!(parse_device("metal"), Some(DeviceRequest::Metal));
    assert_eq!(parse_device("Metal"), None);
}
