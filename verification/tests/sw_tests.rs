use sw::codec::{encode_history, parse_history};
use sw::history::{CommandSignature, History, TimingRecord};
use sw::orchestrate::{exit_code, needs_usage, should_display, usage_exit_code, LaunchOutcome};
use sw::stats::{summarize, StatsError};
use sw::store::{initial_content, HistoryError, Store};
use sw::update::{updated_content, UpdateError};

fn rec(cmd: &str, args: &[&str], start_ms: u64, dur_ns: u64) -> TimingRecord {
    TimingRecord {
        command: cmd.to_string(),
        args: args.iter().map(|a| a.to_string()).collect(),
        start_epoch_ms: start_ms,
        duration_ns: dur_ns,
    }
}

fn sig(cmd: &str, args: &[&str]) -> CommandSignature {
    CommandSignature {
        command: cmd.to_string(),
        args: args.iter().map(|a| a.to_string()).collect(),
    }
}

fn text_of(h: &History) -> String {
    encode_history(h).into_iter().collect()
}

fn chars(s: &str) -> Vec<char> {
    s.chars().collect()
}

const NS: u64 = 1_000_000_000;

#[test]
fn encode_empty_history() {
    let h = History::new();
    assert_eq!(text_of(&h), "{\"timings\":[]}");
}

#[test]
fn encode_one_record() {
    let mut h = History::new();
    h.append(rec("git", &["status"], 1700000000000, 123456789));
    assert_eq!(
        text_of(&h),
        "{\"timings\":[{\"command\":\"git\",\"args\":[\"status\"],\
         \"start_epoch_ms\":1700000000000,\"duration_ns\":123456789}]}"
    );
}

#[test]
fn encode_two_records_comma_separated() {
    let mut h = History::new();
    h.append(rec("ls", &[], 1, 2));
    h.append(rec("ls", &["-l", "-a"], 3, 4));
    assert_eq!(
        text_of(&h),
        "{\"timings\":[{\"command\":\"ls\",\"args\":[],\"start_epoch_ms\":1,\"duration_ns\":2},\
         {\"command\":\"ls\",\"args\":[\"-l\",\"-a\"],\"start_epoch_ms\":3,\"duration_ns\":4}]}"
    );
}

#[test]
fn round_trip_plain() {
    let mut h = History::new();
    h.append(rec("git", &["status"], 10, 20));
    h.append(rec("cargo", &["build", "--release"], 30, 40));
    let parsed = parse_history(&encode_history(&h)).expect("well-formed");
    assert_eq!(parsed.timings.len(), 2);
    assert_eq!(parsed.timings[0].command, "git");
    assert_eq!(parsed.timings[0].args, vec!["status".to_string()]);
    assert_eq!(parsed.timings[0].start_epoch_ms, 10);
    assert_eq!(parsed.timings[0].duration_ns, 20);
    assert_eq!(parsed.timings[1].command, "cargo");
    assert_eq!(
        parsed.timings[1].args,
        vec!["build".to_string(), "--release".to_string()]
    );
    assert_eq!(parsed.timings[1].start_epoch_ms, 30);
    assert_eq!(parsed.timings[1].duration_ns, 40);
}

#[test]
fn round_trip_with_escapes() {
    let mut h = History::new();
    h.append(rec(
        "echo",
        &["say \"hi\"", "back\\slash", "tab\there", "new\nline", "\u{1}"],
        7,
        8,
    ));
    let text = text_of(&h);
    assert!(text.contains("\\\"hi\\\""));
    assert!(text.contains("back\\\\slash"));
    assert!(text.contains("\\u0009"));
    assert!(text.contains("\\u000a"));
    assert!(text.contains("\\u0001"));
    let parsed = parse_history(&chars(&text)).expect("well-formed");
    assert_eq!(parsed.timings[0].args[0], "say \"hi\"");
    assert_eq!(parsed.timings[0].args[1], "back\\slash");
    assert_eq!(parsed.timings[0].args[2], "tab\there");
    assert_eq!(parsed.timings[0].args[3], "new\nline");
    assert_eq!(parsed.timings[0].args[4], "\u{1}");
}

#[test]
fn round_trip_unicode_command() {
    let mut h = History::new();
    h.append(rec("\u{e9}cho", &["na\u{ef}ve", "\u{1f980}"], 0, 0));
    let parsed = parse_history(&encode_history(&h)).expect("well-formed");
    assert_eq!(parsed.timings[0].command, "\u{e9}cho");
    assert_eq!(parsed.timings[0].args, vec!["na\u{ef}ve".to_string(), "\u{1f980}".to_string()]);
}

#[test]
fn parse_rejects_malformed() {
    assert!(parse_history(&chars("")).is_none());
    assert!(parse_history(&chars("{\"timings\":[]")).is_none());
    assert!(parse_history(&chars("{\"timings\":[]} ")).is_none());
    assert!(parse_history(&chars("{\"timings\":{}}")).is_none());
    assert!(parse_history(&chars("not json")).is_none());
    assert!(parse_history(&chars(
        "{\"timings\":[{\"command\":\"a\",\"args\":[],\"start_epoch_ms\":-1,\"duration_ns\":0}]}"
    ))
    .is_none());
    // a duration one past u64::MAX must be rejected, not wrapped
    assert!(parse_history(&chars(
        "{\"timings\":[{\"command\":\"a\",\"args\":[],\"start_epoch_ms\":0,\
         \"duration_ns\":18446744073709551616}]}"
    ))
    .is_none());
}

#[test]
fn parse_accepts_u64_max() {
    let text = "{\"timings\":[{\"command\":\"a\",\"args\":[],\"start_epoch_ms\":0,\
                \"duration_ns\":18446744073709551615}]}";
    let parsed = parse_history(&chars(text)).expect("well-formed");
    assert_eq!(parsed.timings[0].duration_ns, u64::MAX);
}

#[test]
fn statistics_one_two_three_seconds() {
    let mut h = History::new();
    h.append(rec("sleep", &["x"], 0, 1 * NS));
    h.append(rec("sleep", &["x"], 1, 2 * NS));
    h.append(rec("sleep", &["x"], 2, 3 * NS));
    let s = summarize(&h, &sig("sleep", &["x"])).expect("samples");
    assert_eq!(s.count, 3);
    assert_eq!(s.min_ns, 1 * NS);
    assert_eq!(s.max_ns, 3 * NS);
    assert_eq!(s.sum_ns, 6 * NS as u128);
    // 3 * (1 + 4 + 9) - 36 = 6, in units of 10^18 ns^2
    assert_eq!(s.dev_num, 6_000_000_000_000_000_000u128);
    let mean_s = s.sum_ns as f64 / s.count as f64 / 1e9;
    assert!((mean_s - 2.0).abs() < 1e-12);
    let std_s = (s.dev_num as f64).sqrt() / s.count as f64 / 1e9;
    assert!((std_s - 0.816496580927726).abs() < 1e-9);
}

#[test]
fn statistics_single_sample() {
    let mut h = History::new();
    h.append(rec("ls", &[], 0, 5 * NS));
    let s = summarize(&h, &sig("ls", &[])).expect("samples");
    assert_eq!(s.count, 1);
    assert_eq!(s.min_ns, 5 * NS);
    assert_eq!(s.max_ns, 5 * NS);
    assert_eq!(s.dev_num, 0);
    assert!(!should_display(s.count));
}

#[test]
fn statistics_no_samples() {
    let h = History::new();
    assert!(matches!(
        summarize(&h, &sig("ls", &[])),
        Err(StatsError::NoSamples)
    ));
    let mut h2 = History::new();
    h2.append(rec("ls", &["-l"], 0, 1));
    assert!(matches!(
        summarize(&h2, &sig("ls", &[])),
        Err(StatsError::NoSamples)
    ));
}

#[test]
fn statistics_overflow() {
    let mut h = History::new();
    h.append(rec("a", &[], 0, u64::MAX));
    h.append(rec("a", &[], 1, u64::MAX));
    assert!(matches!(
        summarize(&h, &sig("a", &[])),
        Err(StatsError::Overflow)
    ));
}

#[test]
fn signature_isolation() {
    let mut h = History::new();
    h.append(rec("a", &["1"], 0, 10));
    h.append(rec("b", &[], 0, 99));
    let before = summarize(&h, &sig("a", &["1"])).expect("samples");
    h.append(rec("b", &[], 1, 12345));
    let after = summarize(&h, &sig("a", &["1"])).expect("samples");
    assert_eq!(before.count, after.count);
    assert_eq!(before.min_ns, after.min_ns);
    assert_eq!(before.max_ns, after.max_ns);
    assert_eq!(before.sum_ns, after.sum_ns);
    assert_eq!(before.dev_num, after.dev_num);
}

#[test]
fn order_sensitive_signatures() {
    let mut h = History::new();
    h.append(rec("git", &["status"], 0, 1 * NS));
    h.append(rec("git", &["status", "-s"], 0, 2 * NS));
    h.append(rec("git", &["status"], 0, 3 * NS));
    let plain = summarize(&h, &sig("git", &["status"])).expect("samples");
    let short = summarize(&h, &sig("git", &["status", "-s"])).expect("samples");
    assert_eq!(plain.count, 2);
    assert_eq!(plain.sum_ns, 4 * NS as u128);
    assert_eq!(short.count, 1);
    assert_eq!(short.sum_ns, 2 * NS as u128);
}

#[test]
fn store_initializes_once() {
    let mut st = Store::absent();
    assert!(matches!(st.load(), Err(HistoryError::StorageUnavailable)));
    st.ensure();
    let h = st.load().expect("initialized");
    assert_eq!(h.timings.len(), 0);
    // populate, then ensure again: nothing may be erased
    st.append(rec("ls", &[], 0, 1)).expect("append");
    let populated: String = st.content.clone().unwrap().into_iter().collect();
    st.ensure();
    st.ensure();
    let still: String = st.content.clone().unwrap().into_iter().collect();
    assert_eq!(populated, still);
    assert_eq!(st.load().expect("loads").timings.len(), 1);
}

#[test]
fn store_append_monotonic() {
    let mut st = Store::with_content(initial_content());
    st.append(rec("a", &[], 0, 1)).expect("append");
    st.append(rec("b", &["x"], 1, 2)).expect("append");
    let h = st.load().expect("loads");
    assert_eq!(h.timings.len(), 2);
    assert_eq!(h.timings[0].command, "a");
    assert_eq!(h.timings[1].command, "b");
    st.append(rec("c", &[], 2, 3)).expect("append");
    let h2 = st.load().expect("loads");
    assert_eq!(h2.timings.len(), 3);
    assert_eq!(h2.timings[0].command, "a");
    assert_eq!(h2.timings[1].command, "b");
    assert_eq!(h2.timings[2].command, "c");
    assert_eq!(h2.timings[2].duration_ns, 3);
}

#[test]
fn store_rejects_corrupt_text() {
    let st = Store::with_content(chars("{\"timings\":[oops]}"));
    assert!(matches!(st.load(), Err(HistoryError::CorruptHistory)));
    let mut st2 = Store::with_content(chars("garbage"));
    assert!(matches!(
        st2.append(rec("a", &[], 0, 1)),
        Err(HistoryError::CorruptHistory)
    ));
    let mut st3 = Store::absent();
    assert!(matches!(
        st3.append(rec("a", &[], 0, 1)),
        Err(HistoryError::StorageUnavailable)
    ));
}

#[test]
fn update_appends_and_summarizes() {
    let t0 = initial_content();
    let o1 = updated_content(&t0, rec("make", &["-j4"], 0, 2 * NS)).expect("update");
    assert_eq!(o1.history.timings.len(), 1);
    assert_eq!(o1.summary.count, 1);
    let o2 = updated_content(&o1.text, rec("make", &["-j4"], 1, 4 * NS)).expect("update");
    assert_eq!(o2.history.timings.len(), 2);
    assert_eq!(o2.summary.count, 2);
    assert_eq!(o2.summary.min_ns, 2 * NS);
    assert_eq!(o2.summary.max_ns, 4 * NS);
    assert_eq!(o2.summary.sum_ns, 6 * NS as u128);
}

#[test]
fn update_rejects_corrupt_text() {
    assert!(matches!(
        updated_content(&chars("{}"), rec("a", &[], 0, 1)),
        Err(UpdateError::CorruptHistory)
    ));
}

#[test]
fn update_reports_overflow() {
    let t0 = initial_content();
    // one maximal sample still fits (its deviation numerator is 0), a second
    // one pushes the sum of squares past u128
    let o1 = updated_content(&t0, rec("a", &[], 0, u64::MAX)).expect("one sample fits");
    assert_eq!(o1.summary.dev_num, 0);
    let o2 = updated_content(&o1.text, rec("a", &[], 1, u64::MAX));
    assert!(matches!(o2, Err(UpdateError::Overflow)));
}

#[test]
fn orchestration_decisions() {
    assert!(!should_display(0));
    assert!(!should_display(1));
    assert!(should_display(2));
    assert!(needs_usage(0));
    assert!(!needs_usage(1));
    assert_eq!(exit_code(&LaunchOutcome::Ran(0)), 0);
    assert_eq!(exit_code(&LaunchOutcome::Ran(42)), 42);
    assert_eq!(exit_code(&LaunchOutcome::Failed), 255);
    assert_eq!(usage_exit_code(), 1);
}

#[test]
fn end_to_end_three_runs() {
    // three runs of the same command, 0.5 s, 1.5 s, 1.0 s
    let mut st = Store::absent();
    st.ensure();
    let durations = [NS / 2, 3 * NS / 2, NS];
    let mut last = None;
    for (i, d) in durations.iter().enumerate() {
        let text = st.content.clone().unwrap();
        let o = updated_content(&text, rec("build", &["all"], i as u64, *d)).expect("update");
        st = Store::with_content(o.text.clone());
        last = Some(o.summary);
    }
    let s = last.unwrap();
    assert_eq!(s.count, 3);
    assert!(should_display(s.count));
    assert_eq!(s.min_ns, NS / 2);
    assert_eq!(s.max_ns, 3 * NS / 2);
    let mean_s = s.sum_ns as f64 / s.count as f64 / 1e9;
    assert!((mean_s - 1.0).abs() < 1e-12);
    let std_s = (s.dev_num as f64).sqrt() / s.count as f64 / 1e9;
    assert!((std_s - 0.408248290463863).abs() < 1e-9);
}
