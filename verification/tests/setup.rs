use nomi::setup::{
    check_status, has_required_model, parse_u8, pull_progress, pull_report, wait_step, DownloadProgress,
    SetupProgress, WaitAction, MIB, STARTUP_POLLS,
};

fn strings(items: &[&str]) -> Vec<String> {
    items.iter().map(|s| s.to_string()).collect()
}

#[test]
fn required_model_is_found_by_name_before_version() {
    assert!(has_required_model(&strings(&["qwen2.5:7b-instruct", "nomi-namer:latest"])));
    assert!(has_required_model(&strings(&["nomi-namer"])));
    assert!(!has_required_model(&strings(&["qwen2.5:7b-instruct"])));
    assert!(!has_required_model(&strings(&["nomi-namer-2:latest", "x:nomi-namer"])));
    assert!(!has_required_model(&[]));
}

#[test]
fn status_model_ready_only_when_running_and_listed() {
    let tags = strings(&["nomi-namer:latest"]);
    let s = check_status(true, true, Some(tags.clone()));
    assert!(s.ollama_installed && s.ollama_running && s.model_ready);
    let s = check_status(true, false, Some(tags));
    assert!(!s.model_ready);
    let s = check_status(false, true, None);
    assert!(!s.ollama_installed && s.ollama_running && !s.model_ready);
    let s = check_status(true, true, Some(strings(&["other:1"])));
    assert!(!s.model_ready);
}

#[test]
fn progress_report_fields() {
    let p = SetupProgress::new("ollama-download", Some(3), "x");
    assert_eq!(p.stage, "ollama-download");
    assert_eq!(p.percent, Some(3));
    assert_eq!(p.message, "x");
}

#[test]
fn download_reports_each_new_percentage() {
    let mut d = DownloadProgress::new("ollama-download", 200 * MIB);
    let p = d.on_chunk(2 * MIB).unwrap();
    assert_eq!(p.stage, "ollama-download");
    assert_eq!(p.percent, Some(1));
    assert_eq!(p.message, "2 / 200 MB");
    assert!(d.on_chunk(1).is_none());
    assert_eq!(d.downloaded, 2 * MIB + 1);
    let p = d.on_chunk(198 * MIB).unwrap();
    assert_eq!(p.percent, Some(100));
    assert_eq!(p.message, "200 / 200 MB");
    assert_eq!(d.last_percent, 100);
}

#[test]
fn download_of_unknown_length_is_silent() {
    let mut d = DownloadProgress::new("ollama-download", 0);
    assert!(d.on_chunk(5 * MIB).is_none());
    assert_eq!(d.downloaded, 5 * MIB);
}

#[test]
fn download_stays_silent_below_one_percent() {
    let mut d = DownloadProgress::new("s", 1000);
    assert!(d.on_chunk(9).is_none());
    assert_eq!(d.on_chunk(1).unwrap().percent, Some(1));
}

#[test]
fn pull_lines_report_percentages() {
    let p = pull_progress("pulling 6a0746a1ec1a:  45% ▕███   ▏ 2.1 GB/4.7 GB").unwrap();
    assert_eq!(p.stage, "model-pull");
    assert_eq!(p.percent, Some(45));
    assert_eq!(p.message, "pulling 6a0746a1ec1a:  45% ▕███   ▏ 2.1 GB/4.7 GB");
    assert_eq!(pull_progress("100%").unwrap().percent, Some(100));
    assert_eq!(pull_progress("1234%").unwrap().percent, Some(234));
}

#[test]
fn pull_lines_without_byte_percentage_are_skipped() {
    assert!(pull_progress("pulling manifest").is_none());
    assert!(pull_progress("999%").is_none());
    assert!(pull_progress("50 %").is_none());
}

#[test]
fn pull_report_from_captured_digits() {
    let r = pull_report("300% done", Some("300".to_string()));
    assert!(r.is_none());
    let r = pull_report("42% done", Some("42".to_string())).unwrap();
    assert_eq!(r.percent, Some(42));
    assert_eq!(r.message, "42% done");
    assert!(pull_report("done", None).is_none());
    assert!(pull_progress("300%").is_none());
    assert_eq!(pull_progress("a 7% b 8%").unwrap().percent, Some(7));
}

#[test]
fn bytes_in_decimal() {
    assert_eq!(parse_u8("0"), Some(0));
    assert_eq!(parse_u8("255"), Some(255));
    assert_eq!(parse_u8("+7"), Some(7));
    assert_eq!(parse_u8("007"), Some(7));
    assert_eq!(parse_u8("256"), None);
    assert_eq!(parse_u8("2560"), None);
    assert_eq!(parse_u8(""), None);
    assert_eq!(parse_u8("+"), None);
    assert_eq!(parse_u8("-1"), None);
    assert_eq!(parse_u8("1a"), None);
    assert_eq!(parse_u8("٣"), None);
}

#[test]
fn waiting_for_the_service() {
    assert!(matches!(wait_step(1, true), WaitAction::Ready));
    assert!(matches!(wait_step(STARTUP_POLLS, true), WaitAction::Ready));
    assert!(matches!(wait_step(1, false), WaitAction::PauseThenPoll));
    assert!(matches!(wait_step(STARTUP_POLLS - 1, false), WaitAction::PauseThenPoll));
    match wait_step(STARTUP_POLLS, false) {
        WaitAction::PauseThenGiveUp(m) => assert_eq!(m, "ollama did not start within 60 seconds"),
        _ => panic!("expected to give up"),
    }
}
