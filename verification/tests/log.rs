use wt::util::{Log, Msg, MAX_LINES};

#[test]
fn a_new_log_is_empty_and_running() {
    let log = Log::new();
    assert!(log.lines().is_empty());
    assert!(log.running());
    assert!(!log.failed());
}

#[test]
fn lines_are_kept_in_order() {
    let mut log = Log::new();
    log.push(Msg::Info("one".into()));
    log.push(Msg::Out("two".into()));
    let texts: Vec<String> = log
        .lines()
        .iter()
        .map(|m| match m {
            Msg::Info(s) | Msg::Out(s) => s.clone(),
            _ => String::new(),
        })
        .collect();
    assert_eq!(texts, vec!["one".to_string(), "two".to_string()]);
}

#[test]
fn a_long_output_keeps_only_its_last_lines() {
    let mut log = Log::new();
    for i in 0..MAX_LINES + 3 {
        log.push(Msg::Out(i.to_string()));
    }
    assert_eq!(log.lines().len(), MAX_LINES);
    match &log.lines()[0] {
        Msg::Out(s) => assert_eq!(s, "3"),
        _ => panic!("unexpected first line"),
    }
}

#[test]
fn finishing_records_a_failure_and_keeps_it() {
    let mut log = Log::new();
    log.push(Msg::Warn("careful".into()));
    log.finish(true);
    assert!(!log.running());
    assert!(log.failed());
    assert_eq!(log.lines().len(), 1);
    log.finish(false);
    assert!(log.failed());
}
