use cutter::{plan, sort_timestamps, Config, CutInstruction, Cutter, ParseError, TimeStamp};

fn secs(second: u32) -> TimeStamp {
    TimeStamp { hour: 0, minute: 0, second, millis: 0 }
}

fn describe(c: &CutInstruction) -> (String, String, Option<String>, String) {
    (c.input.clone(), c.from.clone(), c.to.clone(), c.output.clone())
}

fn expected(from: &str, to: Option<&str>, output: &str) -> (String, String, Option<String>, String) {
    ("song.mp3".to_string(), from.to_string(), to.map(|s| s.to_string()), output.to_string())
}

#[test]
fn plan_sorts_offsets_and_adds_trailing_segment() {
    let r = plan("song.mp3".to_string(), vec![secs(10), secs(30), secs(20)], "ext".to_string());
    let got: Vec<_> = r.iter().map(describe).collect();
    assert_eq!(
        got,
        vec![
            expected("0:0:0.0", Some("0:0:10.0"), "1.ext"),
            expected("0:0:10.0", Some("0:0:20.0"), "2.ext"),
            expected("0:0:20.0", Some("0:0:30.0"), "3.ext"),
            expected("0:0:30.0", None, "4.ext"),
        ]
    );
}

#[test]
fn plan_without_offsets_cuts_once_to_the_end() {
    let r = plan("song.mp3".to_string(), vec![], "ext".to_string());
    let got: Vec<_> = r.iter().map(describe).collect();
    assert_eq!(got, vec![expected("0:0:0.0", None, "1.ext")]);
}

#[test]
fn plan_twice_gives_identical_output() {
    let offsets = vec![secs(30), secs(5), secs(12)];
    let a: Vec<_> = plan("song.mp3".to_string(), offsets.clone(), "ext".to_string())
        .iter()
        .map(describe)
        .collect();
    let b: Vec<_> = plan("song.mp3".to_string(), offsets, "ext".to_string())
        .iter()
        .map(describe)
        .collect();
    assert_eq!(a, b);
}

#[test]
fn plan_of_sorted_offsets_matches_plan_of_unsorted() {
    let offsets = vec![secs(30), secs(5), secs(12)];
    let sorted = sort_timestamps(&offsets);
    let a: Vec<_> = plan("song.mp3".to_string(), offsets, "ext".to_string()).iter().map(describe).collect();
    let b: Vec<_> = plan("song.mp3".to_string(), sorted, "ext".to_string()).iter().map(describe).collect();
    assert_eq!(a, b);
}

#[test]
fn sort_orders_by_total_time_including_millis() {
    let a = TimeStamp { hour: 0, minute: 0, second: 2, millis: 0 };
    let b = TimeStamp { hour: 0, minute: 0, second: 1, millis: 1500 };
    let c = TimeStamp { hour: 0, minute: 1, second: 0, millis: 0 };
    let d = TimeStamp { hour: 0, minute: 0, second: 59, millis: 999 };
    assert_eq!(sort_timestamps(&vec![c, b, d, a]), vec![a, b, d, c]);
}

#[test]
fn sort_keeps_order_of_equal_offsets() {
    let a = TimeStamp { hour: 0, minute: 1, second: 0, millis: 0 };
    let b = TimeStamp { hour: 0, minute: 0, second: 60, millis: 0 };
    let c = TimeStamp { hour: 0, minute: 0, second: 59, millis: 1000 };
    assert_eq!(sort_timestamps(&vec![a, b, c]), vec![a, b, c]);
    assert_eq!(sort_timestamps(&vec![c, a, b]), vec![c, a, b]);
    assert_eq!(sort_timestamps(&vec![b, secs(1), a]), vec![secs(1), b, a]);
}

#[test]
fn cutter_steps_in_ascending_order_then_stops() {
    let mut cutter = Cutter::new("in.wav".to_string(), vec![secs(7), secs(3)], "wav".to_string());
    let first = cutter.next().unwrap();
    assert_eq!(first.from, "0:0:0.0");
    assert_eq!(first.to, Some("0:0:3.0".to_string()));
    assert_eq!(first.output, "1.wav");
    assert_eq!(first.input, "in.wav");
    let second = cutter.next().unwrap();
    assert_eq!(second.from, "0:0:3.0");
    assert_eq!(second.to, Some("0:0:7.0".to_string()));
    assert_eq!(second.output, "2.wav");
    let last = cutter.next().unwrap();
    assert_eq!(last.from, "0:0:7.0");
    assert_eq!(last.to, None);
    assert_eq!(last.output, "3.wav");
    assert!(cutter.next().is_none());
    assert!(cutter.next().is_none());
}

fn drain(mut cutter: Cutter) -> Vec<(String, Option<String>, String)> {
    let mut out = Vec::new();
    while let Some(c) = cutter.next() {
        out.push((c.from, c.to, c.output));
    }
    out
}

fn parsed(texts: &[&str]) -> Vec<TimeStamp> {
    texts.iter().map(|s| TimeStamp::from_str(s).unwrap()).collect()
}

#[test]
fn cutter_sorts_the_boundaries_it_is_given() {
    let cutter = Cutter::new("in".to_string(), parsed(&["10", "30", "20"]), "ext".to_string());
    let s = |x: &str| x.to_string();
    assert_eq!(
        drain(cutter),
        vec![
            (s("0:0:0.0"), Some(s("0:0:10.0")), s("1.ext")),
            (s("0:0:10.0"), Some(s("0:0:20.0")), s("2.ext")),
            (s("0:0:20.0"), Some(s("0:0:30.0")), s("3.ext")),
            (s("0:0:30.0"), None, s("4.ext")),
        ]
    );
}

#[test]
fn cutter_keeps_the_order_of_equal_boundaries() {
    let cutter = Cutter::new("in".to_string(), parsed(&["0:1:0", "60", "30"]), "ext".to_string());
    let tos: Vec<Option<String>> = drain(cutter).into_iter().map(|c| c.1).collect();
    assert_eq!(
        tos,
        vec![Some("0:0:30.0".to_string()), Some("0:1:0.0".to_string()), Some("0:0:60.0".to_string()), None]
    );
}

#[test]
fn cutter_cuts_the_smaller_offset_first() {
    let cutter = Cutter::new("in".to_string(), parsed(&["20", "10"]), "ext".to_string());
    let got = drain(cutter);
    assert_eq!(got.len(), 3);
    assert_eq!(got[0].1, Some("0:0:10.0".to_string()));
    assert_eq!(got[1].1, Some("0:0:20.0".to_string()));
    assert_eq!(got[2].1, None);
}

#[test]
fn cutter_without_boundaries_cuts_once_to_the_end() {
    let cutter = Cutter::new("in".to_string(), vec![], "ext".to_string());
    assert_eq!(drain(cutter), vec![("0:0:0.0".to_string(), None, "1.ext".to_string())]);
}

#[test]
fn two_cutters_on_the_same_input_agree() {
    let ts = parsed(&["5:0", "1:2:3.4", "0.5", "300"]);
    let a = drain(Cutter::new("in".to_string(), ts.clone(), "ext".to_string()));
    let b = drain(Cutter::new("in".to_string(), ts, "ext".to_string()));
    assert_eq!(a.len(), 5);
    assert_eq!(a, b);
}

#[test]
fn output_names_count_past_nine() {
    let offsets: Vec<TimeStamp> = (1..=11).map(secs).collect();
    let r = plan("song.mp3".to_string(), offsets, "flac".to_string());
    assert_eq!(r.len(), 12);
    assert_eq!(r[9].output, "10.flac");
    assert_eq!(r[11].output, "12.flac");
    assert_eq!(r[11].from, "0:0:11.0");
}

#[test]
fn config_plans_from_text_timestamps() {
    let config = Config {
        input: "song.mp3".to_string(),
        extension: "ext".to_string(),
        timestamps: vec!["30".to_string(), "0:10".to_string(), "20.5".to_string()],
    };
    let got: Vec<_> = config.plan_cuts().unwrap().iter().map(describe).collect();
    assert_eq!(
        got,
        vec![
            expected("0:0:0.0", Some("0:0:10.0"), "1.ext"),
            expected("0:0:10.0", Some("0:0:20.5"), "2.ext"),
            expected("0:0:20.5", Some("0:0:30.0"), "3.ext"),
            expected("0:0:30.0", None, "4.ext"),
        ]
    );
}

#[test]
fn config_fails_on_any_malformed_timestamp() {
    let config = Config {
        input: "song.mp3".to_string(),
        extension: "ext".to_string(),
        timestamps: vec!["30".to_string(), "1:x".to_string(), "20".to_string()],
    };
    assert!(matches!(config.plan_cuts(), Err(ParseError::MalformedField)));
}
