use aus_vs_hound::args::Args;
use aus_vs_hound::kind::BenchKind;
use aus_vs_hound::plan::BenchConfig;
use aus_vs_hound::report::{
    csv_settings_text, group_title_text, markdown_layout, markdown_settings_text, no_results_text,
    progress_text, result_name_text, run_banner_text, scratch_path_text, signal_path_text, Library,
    MarkdownRow,
};

#[test]
fn progress_lines() {
    assert_eq!(progress_text(1, 20, Library::Hound, BenchKind::Read, "i16", 1), "[  1/20] hound read    i16 1ch ... ");
    assert_eq!(progress_text(2, 20, Library::Aus, BenchKind::Read, "i16", 1), "[  2/20] aus   read    i16 1ch ... ");
    assert_eq!(progress_text(3, 20, Library::Mmap, BenchKind::Read, "i8", 2), "[  3/20] mmap  read    i8  2ch ... ");
    assert_eq!(
        progress_text(1234, 2000, Library::Aus, BenchKind::StreamedWrite, "f32", 16),
        "[1234/2000] aus   s-write f32 16ch ... "
    );
}

#[test]
fn library_names() {
    assert_eq!(Library::Hound.name(), "hound");
    assert_eq!(Library::Aus.name(), "aus");
    assert_eq!(Library::Mmap.name(), "mmap");
}

#[test]
fn result_names() {
    assert_eq!(result_name_text(Library::Hound, "i16", 1), "hound · i16 · 1ch");
    assert_eq!(result_name_text(Library::Mmap, "f32", 2), "mmap · f32 · 2ch");
}

#[test]
fn table_titles() {
    assert_eq!(
        group_title_text(BenchKind::Read, 10, 1000, 100, 4096, false),
        "Read — 10s signal · 1000 iterations · 100 warmup"
    );
    assert_eq!(
        group_title_text(BenchKind::StreamedRead, 10, 1000, 100, 4096, true),
        "Streamed Read — 10s · 1000 iters · 100 warmup · chunk 4096 · cold-cache"
    );
    assert_eq!(
        group_title_text(BenchKind::Write, 0, 0, 0, 0, true),
        "Write — 0s signal · 0 iterations · 0 warmup · cold-cache"
    );
}

#[test]
fn no_results_line() {
    assert_eq!(no_results_text(BenchKind::Write), "[ Write — no results ]");
}

#[test]
fn csv_settings_columns() {
    assert_eq!(
        csv_settings_text(BenchKind::StreamedWrite, "f32", 2, 10, 1000, 100, 4096, true),
        "streamed-write,f32,2,10,1000,100,4096,1"
    );
    assert_eq!(csv_settings_text(BenchKind::Read, "i16", 1, 1, 50, 5, 512, false), "read,i16,1,1,50,5,512,0");
}

#[test]
fn csv_settings_split_back_into_fields() {
    let line = csv_settings_text(BenchKind::StreamedRead, "i24", 6, 3, 77, 9, 2048, false);
    let fields: Vec<&str> = line.split(',').collect();
    assert_eq!(fields, vec!["streamed-read", "i24", "6", "3", "77", "9", "2048", "0"]);
}

#[test]
fn markdown_settings_line() {
    assert_eq!(
        markdown_settings_text(10, 1000, 100, 4096, false),
        "Signal: 10s · Sample rate: 44 100 Hz · Iterations: 1000 · Warmup: 100 · Chunk: 4096"
    );
    assert_eq!(
        markdown_settings_text(1, 50, 5, 512, true),
        "Signal: 1s · Sample rate: 44 100 Hz · Iterations: 50 · Warmup: 5 · Chunk: 512 · **cold-cache**"
    );
}

#[test]
fn banner_for_defaults() {
    assert_eq!(
        run_banner_text(&Args::defaults()),
        "Running: Read, Write, Streamed Read, Streamed Write | dtypes: i16, i32, f32 | channels: 1ch, 2ch | signal: 10s | 1000 iters / 100 warmup | chunk: 4096"
    );
}

#[test]
fn banner_for_cold_cache_single_kind() {
    let mut a = Args::defaults();
    a.benches = vec![BenchKind::StreamedRead];
    a.channels = vec![2];
    a.cold_cache = true;
    assert_eq!(
        run_banner_text(&a),
        "Running: Streamed Read | dtypes: i16, i32, f32 | channels: 2ch | signal: 10s | 1000 iters / 100 warmup | chunk: 4096 · cold-cache"
    );
}

fn config(dtype: &str, channels: u32, secs: u64) -> BenchConfig {
    BenchConfig {
        iterations: 1,
        warmup_iterations: 0,
        signal_duration_secs: secs,
        signal_dtype: dtype.to_string(),
        chunk_size: 64,
        channels,
        cold_cache: false,
    }
}

#[test]
fn signal_and_scratch_paths() {
    assert_eq!(signal_path_text(&config("i16", 2, 10)), "resources/sine_10s_i16_2ch.wav");
    assert_eq!(
        scratch_path_text("hound_streamed", &config("f32", 1, 600)),
        "resources/tmp/hound_streamed_sine_600s_f32_1ch.wav"
    );
}

#[test]
fn markdown_layout_lists_results_with_spacers() {
    assert_eq!(
        markdown_layout(&[(true, true, false), (false, false, false), (false, true, true)]),
        vec![
            MarkdownRow::Measured(0, Library::Hound),
            MarkdownRow::Measured(0, Library::Aus),
            MarkdownRow::Spacer,
            MarkdownRow::Measured(2, Library::Aus),
            MarkdownRow::Measured(2, Library::Mmap),
            MarkdownRow::Spacer,
        ]
    );
    assert_eq!(markdown_layout(&[(true, true, true)]), vec![
        MarkdownRow::Measured(0, Library::Hound),
        MarkdownRow::Measured(0, Library::Aus),
        MarkdownRow::Measured(0, Library::Mmap),
        MarkdownRow::Spacer,
    ]);
}

#[test]
fn markdown_layout_without_results() {
    assert_eq!(markdown_layout(&[]), vec![MarkdownRow::NoResults]);
    assert_eq!(markdown_layout(&[(false, false, false), (false, false, false)]), vec![MarkdownRow::NoResults]);
}
