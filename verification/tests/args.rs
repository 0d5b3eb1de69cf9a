use aus_vs_hound::args::{Args, Command};
use aus_vs_hound::kind::BenchKind;

fn argv(items: &[&str]) -> Vec<String> {
    items.iter().map(|s| s.to_string()).collect()
}

fn run(items: &[&str]) -> Args {
    match Args::parse(&argv(items)) {
        Ok(Command::Run(a)) => a,
        other => panic!("expected settings, got {:?}", other),
    }
}

fn error(items: &[&str]) -> String {
    match Args::parse(&argv(items)) {
        Err(e) => e,
        other => panic!("expected an error, got {:?}", other),
    }
}

#[test]
fn no_arguments_give_the_documented_defaults() {
    let a = run(&[]);
    assert_eq!(a.dtypes, vec!["i16", "i32", "f32"]);
    assert_eq!(a.channels, vec![1, 2]);
    assert_eq!(a.duration_secs, 10);
    assert_eq!(a.iterations, 1000);
    assert_eq!(a.warmup, 100);
    assert_eq!(a.chunk_size, 4096);
    assert_eq!(
        a.benches,
        vec![BenchKind::Read, BenchKind::Write, BenchKind::StreamedRead, BenchKind::StreamedWrite]
    );
    assert_eq!(a.output, "results");
    assert!(!a.cold_cache);
}

#[test]
fn defaults_match_an_empty_command_line() {
    let d = Args::defaults();
    let a = run(&[]);
    assert_eq!(d.dtypes, a.dtypes);
    assert_eq!(d.channels, a.channels);
    assert_eq!(d.output, a.output);
}

#[test]
fn help_is_recognised_in_both_spellings() {
    assert!(matches!(Args::parse(&argv(&["--help"])), Ok(Command::Help)));
    assert!(matches!(Args::parse(&argv(&["-h"])), Ok(Command::Help)));
    assert!(matches!(Args::parse(&argv(&["--duration", "3", "-h", "--bogus"])), Ok(Command::Help)));
}

#[test]
fn an_error_before_help_wins() {
    assert_eq!(error(&["--bogus", "--help"]), "unknown argument: --bogus");
}

#[test]
fn quick_smoke_test_example() {
    let a = run(&["--duration", "1", "--iterations", "50", "--warmup", "5"]);
    assert_eq!(a.duration_secs, 1);
    assert_eq!(a.iterations, 50);
    assert_eq!(a.warmup, 5);
    assert_eq!(a.chunk_size, 4096);
}

#[test]
fn cold_cache_read_only_stereo_example() {
    let a = run(&["--bench", "read", "--cold-cache", "--channels", "2", "--output", "cold_stereo"]);
    assert_eq!(a.benches, vec![BenchKind::Read]);
    assert!(a.cold_cache);
    assert_eq!(a.channels, vec![2]);
    assert_eq!(a.output, "cold_stereo");
}

#[test]
fn lists_are_split_on_commas_and_trimmed() {
    let a = run(&["--dtype", " i8 ,f32,", "--channels", " 1, 2 ,6", "--bench", "write , streamed-read"]);
    assert_eq!(a.dtypes, vec!["i8", "f32", ""]);
    assert_eq!(a.channels, vec![1, 2, 6]);
    assert_eq!(a.benches, vec![BenchKind::Write, BenchKind::StreamedRead]);
}

#[test]
fn later_options_override_earlier_ones() {
    let a = run(&["--duration", "5", "--chunk-size", "512", "--duration", "+7"]);
    assert_eq!(a.duration_secs, 7);
    assert_eq!(a.chunk_size, 512);
}

#[test]
fn missing_values_are_reported() {
    assert_eq!(error(&["--dtype"]), "--dtype requires a value");
    assert_eq!(error(&["--cold-cache", "--channels"]), "--channels requires a value");
    assert_eq!(error(&["--output"]), "--output requires a value");
    assert_eq!(error(&["--bench"]), "--bench requires a value");
    assert_eq!(error(&["--chunk-size"]), "--chunk-size requires a value");
}

#[test]
fn invalid_numbers_are_reported_with_the_value() {
    assert_eq!(error(&["--duration", "ten"]), "invalid duration: ten");
    assert_eq!(error(&["--iterations", "-5"]), "invalid iterations: -5");
    assert_eq!(error(&["--warmup", ""]), "invalid warmup: ");
    assert_eq!(error(&["--chunk-size", " 64"]), "invalid chunk-size:  64");
    assert_eq!(error(&["--duration", "18446744073709551616"]), "invalid duration: 18446744073709551616");
    assert_eq!(error(&["--duration", "+"]), "invalid duration: +");
}

#[test]
fn largest_duration_is_accepted() {
    let a = run(&["--duration", "18446744073709551615"]);
    assert_eq!(a.duration_secs, u64::MAX);
}

#[test]
fn invalid_channel_count_quotes_the_untrimmed_piece() {
    assert_eq!(error(&["--channels", "1, x ,2"]), "invalid channel count:  x ");
    assert_eq!(error(&["--channels", "4294967296"]), "invalid channel count: 4294967296");
    assert_eq!(error(&["--channels", "1,,2"]), "invalid channel count: ");
}

#[test]
fn unknown_bench_quotes_the_trimmed_name() {
    assert_eq!(
        error(&["--bench", "read, copy "]),
        "unknown bench: copy (valid: read, write, streamed-read, streamed-write)"
    );
}

#[test]
fn unknown_arguments_are_reported() {
    assert_eq!(error(&["--durations", "3"]), "unknown argument: --durations");
}

#[test]
fn appended_options_apply_on_top() {
    let a = run(&["--warmup", "1", "--cold-cache", "--warmup", "2"]);
    assert_eq!(a.warmup, 2);
    assert!(a.cold_cache);
}

#[test]
fn unicode_white_space_is_trimmed() {
    let a = run(&["--dtype", "\u{3000}i16\u{85},\tf32\u{2009}", "--channels", "\u{a0}2\u{202f}"]);
    assert_eq!(a.dtypes, vec!["i16", "f32"]);
    assert_eq!(a.channels, vec![2]);
}

#[test]
fn zero_width_space_is_not_white_space() {
    let a = run(&["--dtype", "\u{200b}i16"]);
    assert_eq!(a.dtypes, vec!["\u{200b}i16"]);
    assert_eq!(error(&["--channels", "\u{1c}1"]), "invalid channel count: \u{1c}1");
}

#[test]
fn slugs_joined_by_commas_select_the_same_kinds() {
    let kinds = vec![BenchKind::StreamedWrite, BenchKind::Read, BenchKind::Read, BenchKind::StreamedRead];
    let joined: Vec<&str> = kinds.iter().map(|k| k.slug()).collect();
    let a = run(&["--bench", &joined.join(",")]);
    assert_eq!(a.benches, kinds);
    assert_eq!(a.dtypes, vec!["i16", "i32", "f32"]);
    assert_eq!(a.channels, vec![1, 2]);
    assert_eq!(a.duration_secs, 10);
    assert_eq!(a.iterations, 1000);
    assert_eq!(a.warmup, 100);
    assert_eq!(a.chunk_size, 4096);
    assert_eq!(a.output, "results");
    assert!(!a.cold_cache);
}

#[test]
fn unicode_white_space_is_trimmed_from_list_items() {
    let a = run(&["--bench", "\u{3000}write\u{85},\u{2003}read\t", "--dtype", "\u{a0}i16 ,\u{202f}f32"]);
    assert_eq!(a.benches, vec![BenchKind::Write, BenchKind::Read]);
    assert_eq!(a.dtypes, vec!["i16", "f32"]);
    assert_eq!(error(&["--bench", "read\u{200b}"]), "unknown bench: read\u{200b} (valid: read, write, streamed-read, streamed-write)");
}
