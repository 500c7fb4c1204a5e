use proc_modules::module::{Field, Module, ParseError};
use proc_modules::scan::{ModuleScan, ReadOutcome, ScanStep};
use proc_modules::text::{parse_decimal, split_on};

const SAMPLE: &str = r#"snd_hda_intel 40960 9 - Live 0x0000000000000000
snd_hda_codec 126976 4 snd_hda_codec_hdmi,snd_hda_codec_realtek,snd_hda_codec_generic,snd_hda_intel, Live 0x0000000000000000
snd_hda_core 81920 5 snd_hda_codec_hdmi,snd_hda_codec_realtek,snd_hda_codec_generic,snd_hda_intel,snd_hda_codec, Live 0x0000000000000000
nvidia_drm 40960 11 - Live 0x0000000000000000 (POE)"#;

fn names(v: &[&str]) -> Vec<String> {
    v.iter().map(|s| s.to_string()).collect()
}

#[test]
fn modules() {
    let lines: Vec<&str> = SAMPLE.lines().collect();
    assert_eq!(
        Module::parse_from(&lines).unwrap(),
        vec![
            Module {
                module: "snd_hda_intel".into(),
                size: 40960,
                used_by: vec![]
            },
            Module {
                module: "snd_hda_codec".into(),
                size: 126_976,
                used_by: vec![
                    "snd_hda_codec_hdmi".into(),
                    "snd_hda_codec_realtek".into(),
                    "snd_hda_codec_generic".into(),
                    "snd_hda_intel".into(),
                ]
            },
            Module {
                module: "snd_hda_core".into(),
                size: 81920,
                used_by: vec![
                    "snd_hda_codec_hdmi".into(),
                    "snd_hda_codec_realtek".into(),
                    "snd_hda_codec_generic".into(),
                    "snd_hda_intel".into(),
                    "snd_hda_codec".into(),
                ]
            },
            Module {
                module: "nvidia_drm".into(),
                size: 40960,
                used_by: vec![]
            },
        ]
    )
}

#[test]
fn documented_example_line() {
    let m = Module::parse(
        "snd_hda_codec 126976 4 snd_hda_codec_hdmi,snd_hda_codec_realtek, Live 0x0000000000000000",
    )
    .unwrap();
    assert_eq!(m.module, "snd_hda_codec");
    assert_eq!(m.size, 126976);
    assert_eq!(m.used_by, names(&["snd_hda_codec_hdmi", "snd_hda_codec_realtek"]));
}

#[test]
fn sample_sentinel_line() {
    let m = Module::parse("snd_hda_intel 40960 9 - Live 0x0000000000000000").unwrap();
    assert_eq!(
        m,
        Module { module: "snd_hda_intel".into(), size: 40960, used_by: vec![] }
    );
}

#[test]
fn sample_annotation_ignored() {
    let m = Module::parse("nvidia_drm 40960 11 - Live 0x0000000000000000 (POE)").unwrap();
    assert_eq!(
        m,
        Module { module: "nvidia_drm".into(), size: 40960, used_by: vec![] }
    );
}

#[test]
fn sample_five_dependents() {
    let m = Module::parse("snd_hda_core 81920 5 snd_hda_codec_hdmi,snd_hda_codec_realtek,snd_hda_codec_generic,snd_hda_intel,snd_hda_codec, Live 0x0000000000000000").unwrap();
    assert_eq!(
        m.used_by,
        names(&[
            "snd_hda_codec_hdmi",
            "snd_hda_codec_realtek",
            "snd_hda_codec_generic",
            "snd_hda_intel",
            "snd_hda_codec"
        ])
    );
}

#[test]
fn round_trip_minimal_line() {
    let m = Module::parse("a 0 1 x").unwrap();
    assert_eq!(m, Module { module: "a".into(), size: 0, used_by: names(&["x"]) });
}

#[test]
fn sentinel_whatever_else() {
    let m = Module::parse("weird_name 7 999 - anything at all").unwrap();
    assert!(m.used_by.is_empty());
    assert_eq!(m.size, 7);
}

#[test]
fn trailing_comma_gives_no_empty_entry() {
    let m = Module::parse("m 1 2 a,b, Live").unwrap();
    assert_eq!(m.used_by, names(&["a", "b"]));
}

#[test]
fn inner_empty_entries_dropped() {
    let m = Module::parse("m 1 2 ,a,,b Live").unwrap();
    assert_eq!(m.used_by, names(&["a", "b"]));
}

#[test]
fn dash_with_comma_is_a_name() {
    let m = Module::parse("m 1 2 -, Live").unwrap();
    assert_eq!(m.used_by, names(&["-"]));
}

#[test]
fn fail_fast_returns_first_error() {
    let lines = vec!["a 1 2 -", "b abc 2 -", "c 3", ""];
    assert_eq!(
        Module::parse_from(&lines),
        Err(ParseError::InvalidNumber(Field::Size))
    );
    let lines = vec!["a 1 2 -", "b 2 2 -", "c 3"];
    assert_eq!(
        Module::parse_from(&lines),
        Err(ParseError::MissingField(Field::UsedBy))
    );
}

#[test]
fn batch_of_nothing_is_empty() {
    let lines: Vec<&str> = Vec::new();
    assert_eq!(Module::parse_from(&lines), Ok(vec![]));
}

#[test]
fn missing_name() {
    assert_eq!(Module::parse(""), Err(ParseError::MissingField(Field::Name)));
    assert_eq!(Module::parse(" 1 2 -"), Err(ParseError::MissingField(Field::Name)));
}

#[test]
fn missing_size() {
    assert_eq!(Module::parse("abc"), Err(ParseError::MissingField(Field::Size)));
}

#[test]
fn missing_dependents() {
    assert_eq!(Module::parse("abc 12"), Err(ParseError::MissingField(Field::UsedBy)));
    assert_eq!(Module::parse("abc 12 3"), Err(ParseError::MissingField(Field::UsedBy)));
}

#[test]
fn non_numeric_size() {
    assert_eq!(
        Module::parse("abc abc 1 -"),
        Err(ParseError::InvalidNumber(Field::Size))
    );
    assert_eq!(Module::parse("abc -5 1 -"), Err(ParseError::InvalidNumber(Field::Size)));
    assert_eq!(Module::parse("abc  1 -"), Err(ParseError::InvalidNumber(Field::Size)));
}

#[test]
fn largest_size() {
    let m = Module::parse("big 18446744073709551615 0 -").unwrap();
    assert_eq!(m.size, u64::MAX);
    assert_eq!(
        Module::parse("big 18446744073709551616 0 -"),
        Err(ParseError::InvalidNumber(Field::Size))
    );
}

#[test]
fn decimal_reading() {
    assert_eq!(parse_decimal("0"), Some(0));
    assert_eq!(parse_decimal("126976"), Some(126976));
    assert_eq!(parse_decimal("+42"), Some(42));
    assert_eq!(parse_decimal("+"), None);
    assert_eq!(parse_decimal(""), None);
    assert_eq!(parse_decimal("4x"), None);
}

#[test]
fn splitting() {
    assert_eq!(split_on("a b  c", ' '), names(&["a", "b", "", "c"]));
    assert_eq!(split_on("", ','), names(&[""]));
    assert_eq!(split_on("x,", ','), names(&["x", ""]));
}

#[test]
fn scan_yields_records_and_parse_errors() {
    let mut scan = ModuleScan::new();
    assert!(!scan.is_finished());
    match scan.step(ReadOutcome::Line("snd_hda_intel 40960 9 - Live 0x0000000000000000\n")) {
        ScanStep::Record(Ok(m)) => {
            assert_eq!(m.module, "snd_hda_intel");
            assert_eq!(m.size, 40960);
        }
        _ => panic!("expected a record"),
    }
    match scan.step(ReadOutcome::Line("bad\n")) {
        ScanStep::Record(Err(e)) => assert_eq!(e, ParseError::MissingField(Field::Size)),
        _ => panic!("expected a parse error"),
    }
    assert!(!scan.is_finished());
    assert!(matches!(scan.step(ReadOutcome::EndOfStream), ScanStep::End));
    assert!(scan.is_finished());
    assert!(matches!(scan.step(ReadOutcome::Line("a 1 2 -")), ScanStep::End));
}

#[test]
fn scan_ends_after_failed_read() {
    let mut scan = ModuleScan::new();
    assert!(matches!(scan.step(ReadOutcome::Failed), ScanStep::ReadFailed));
    assert!(scan.is_finished());
    assert!(matches!(scan.step(ReadOutcome::Failed), ScanStep::End));
}
