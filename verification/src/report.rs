use vstd::prelude::*;

use crate::args::{Args, ArgsModel};
use crate::kind::{label_of, lemma_slug_has_no_comma, short_of, slug_of, BenchKind};
use crate::lexical::{is_digit, lemma_decimal_is_digits, lemma_split_join, lemma_split_single, split};
use crate::plan::BenchConfig;
use crate::text::{
    append_decimal, append_joined, append_pad_end, append_pad_start, append_str, decimal, join,
    pad_end, pad_start,
};

verus! {

/// The libraries and baseline that a run measures.
#[derive(Debug, Clone, Copy, PartialEq, Eq, Structural)]
pub enum Library {
    Hound,
    Aus,
    Mmap,
}

/// Name of a library in progress lines, result names and CSV output.
pub open spec fn library_name_of(lib: Library) -> Seq<char> {
    match lib {
        Library::Hound => "hound"@,
        Library::Aus => "aus"@,
        Library::Mmap => "mmap"@,
    }
}

impl Library {
    /// Name of the library in progress lines, result names and CSV output.
    pub fn name(self) -> (r: &'static str)
        ensures
            r@ == library_name_of(self),
    {
        match self {
            Library::Hound => "hound",
            Library::Aus => "aus",
            Library::Mmap => "mmap",
        }
    }
}

/// The name of a result: `library · dtype · Nch`.
pub open spec fn result_name(lib: Library, dtype: Seq<char>, ch: u32) -> Seq<char> {
    library_name_of(lib) + " · "@ + dtype + " · "@ + decimal(ch as nat) + "ch"@
}

/// The name of a result.
pub fn result_name_text(lib: Library, dtype: &str, ch: u32) -> (r: String)
    ensures
        r@ == result_name(lib, dtype@, ch),
{
    let mut r = String::new();
    append_str(&mut r, lib.name());
    append_str(&mut r, " · ");
    append_str(&mut r, dtype);
    append_str(&mut r, " · ");
    append_decimal(&mut r, ch as u64);
    append_str(&mut r, "ch");
    assert(r@ =~= result_name(lib, dtype@, ch));
    r
}

/// The note added to titles when the page cache is dropped before reads.
pub open spec fn cache_label(cold_cache: bool) -> Seq<char> {
    if cold_cache {
        " · cold-cache"@
    } else {
        ""@
    }
}

/// The line printed before a benchmark runs:
/// `[  n/total] library kind dtype Nch ... `.
pub open spec fn progress_line(
    current: usize,
    total: usize,
    lib: Library,
    kind: BenchKind,
    dtype: Seq<char>,
    ch: u32,
) -> Seq<char> {
    "["@ + pad_start(decimal(current as nat), 3) + "/"@ + decimal(total as nat) + "] "@ + pad_end(
        library_name_of(lib),
        5,
    ) + " "@ + short_of(kind) + " "@ + pad_end(dtype, 3) + " "@ + decimal(ch as nat) + "ch ... "@
}

/// The title of a results table.
pub open spec fn group_title(
    kind: BenchKind,
    duration_secs: u64,
    iterations: usize,
    warmup: usize,
    chunk_size: usize,
    cold_cache: bool,
) -> Seq<char> {
    if kind == BenchKind::StreamedRead || kind == BenchKind::StreamedWrite {
        label_of(kind) + " — "@ + decimal(duration_secs as nat) + "s · "@ + decimal(
            iterations as nat,
        ) + " iters · "@ + decimal(warmup as nat) + " warmup · chunk "@ + decimal(
            chunk_size as nat,
        ) + cache_label(cold_cache)
    } else {
        label_of(kind) + " — "@ + decimal(duration_secs as nat) + "s signal · "@ + decimal(
            iterations as nat,
        ) + " iterations · "@ + decimal(warmup as nat) + " warmup"@ + cache_label(cold_cache)
    }
}

/// The line printed in place of a table that has no results.
pub open spec fn no_results_line(kind: BenchKind) -> Seq<char> {
    "[ "@ + label_of(kind) + " — no results ]"@
}

/// The settings columns of a CSV line, after the library column.
pub open spec fn csv_settings(
    kind: BenchKind,
    dtype: Seq<char>,
    ch: u32,
    duration_secs: u64,
    iterations: usize,
    warmup: usize,
    chunk_size: usize,
    cold_cache: bool,
) -> Seq<char> {
    slug_of(kind) + ","@ + dtype + ","@ + decimal(ch as nat) + ","@ + decimal(duration_secs as nat)
        + ","@ + decimal(iterations as nat) + ","@ + decimal(warmup as nat) + ","@ + decimal(
        chunk_size as nat,
    ) + ","@ + if cold_cache {
        "1"@
    } else {
        "0"@
    }
}

/// The settings line of the Markdown report.
pub open spec fn markdown_settings(
    duration_secs: u64,
    iterations: usize,
    warmup: usize,
    chunk_size: usize,
    cold_cache: bool,
) -> Seq<char> {
    "Signal: "@ + decimal(duration_secs as nat) + "s · Sample rate: 44 100 Hz · Iterations: "@
        + decimal(iterations as nat) + " · Warmup: "@ + decimal(warmup as nat) + " · Chunk: "@
        + decimal(chunk_size as nat) + if cold_cache {
        " · **cold-cache**"@
    } else {
        ""@
    }
}

fn append_cache_label(out: &mut String, cold_cache: bool)
    ensures
        final(out)@ == old(out)@ + cache_label(cold_cache),
{
    if cold_cache {
        append_str(out, " · cold-cache");
    } else {
        append_str(out, "");
    }
}

/// The line printed before a benchmark runs.
pub fn progress_text(
    current: usize,
    total: usize,
    lib: Library,
    kind: BenchKind,
    dtype: &str,
    ch: u32,
) -> (r: String)
    ensures
        r@ == progress_line(current, total, lib, kind, dtype@, ch),
{
    let mut r = String::new();
    let mut num = String::new();
    append_decimal(&mut num, current as u64);
    append_str(&mut r, "[");
    append_pad_start(&mut r, num.as_str(), 3);
    append_str(&mut r, "/");
    append_decimal(&mut r, total as u64);
    append_str(&mut r, "] ");
    append_pad_end(&mut r, lib.name(), 5);
    append_str(&mut r, " ");
    append_str(&mut r, kind.short());
    append_str(&mut r, " ");
    append_pad_end(&mut r, dtype, 3);
    append_str(&mut r, " ");
    append_decimal(&mut r, ch as u64);
    append_str(&mut r, "ch ... ");
    assert(r@ =~= progress_line(current, total, lib, kind, dtype@, ch));
    r
}

/// The title of the results table of a kind.
pub fn group_title_text(
    kind: BenchKind,
    duration_secs: u64,
    iterations: usize,
    warmup: usize,
    chunk_size: usize,
    cold_cache: bool,
) -> (r: String)
    ensures
        r@ == group_title(kind, duration_secs, iterations, warmup, chunk_size, cold_cache),
{
    let mut r = String::new();
    append_str(&mut r, kind.label());
    append_str(&mut r, " — ");
    append_decimal(&mut r, duration_secs);
    if kind == BenchKind::StreamedRead || kind == BenchKind::StreamedWrite {
        append_str(&mut r, "s · ");
        append_decimal(&mut r, iterations as u64);
        append_str(&mut r, " iters · ");
        append_decimal(&mut r, warmup as u64);
        append_str(&mut r, " warmup · chunk ");
        append_decimal(&mut r, chunk_size as u64);
    } else {
        append_str(&mut r, "s signal · ");
        append_decimal(&mut r, iterations as u64);
        append_str(&mut r, " iterations · ");
        append_decimal(&mut r, warmup as u64);
        append_str(&mut r, " warmup");
    }
    append_cache_label(&mut r, cold_cache);
    assert(r@ =~= group_title(kind, duration_secs, iterations, warmup, chunk_size, cold_cache));
    r
}

proof fn lemma_decimal_below_thousand(n: nat)
    requires
        n < 1000,
    ensures
        1 <= decimal(n).len() <= 3,
{
    if n >= 10 {
        if n / 10 >= 10 {
            assert(decimal(n / 10 / 10).len() == 1);
        }
        assert(decimal(n / 10).len() <= 2);
    }
}

/// Progress lines line up: for a step number below 1000 and a sample type of
/// at most three characters, the line is 32 characters plus the digits of the
/// total and of the channel count; the library's name starts right after the
/// total's `] `, the kind's short name six characters later, and the line ends
/// with the channel count, `ch` and the ellipsis.
pub proof fn lemma_progress_columns(
    current: usize,
    total: usize,
    lib: Library,
    kind: BenchKind,
    dtype: Seq<char>,
    ch: u32,
)
    requires
        current < 1000,
        dtype.len() <= 3,
    ensures
        ({
            let line = progress_line(current, total, lib, kind, dtype, ch);
            let t = decimal(total as nat).len() as int;
            let name = match lib {
                Library::Hound => "hound"@,
                Library::Aus => "aus"@,
                Library::Mmap => "mmap"@,
            };
            &&& line.len() == 32 + t + decimal(ch as nat).len()
            &&& line[0] == '['
            &&& line.subrange(7 + t, 7 + t + name.len()) == name
            &&& line.subrange(13 + t, 20 + t) == short_of(kind)
            &&& ends_with(line, decimal(ch as nat) + "ch ... "@)
        }),
{
    reveal_strlit("hound");
    reveal_strlit("aus");
    reveal_strlit("mmap");
    reveal_strlit("[");
    reveal_strlit("/");
    reveal_strlit("] ");
    reveal_strlit(" ");
    reveal_strlit("ch ... ");
    lemma_decimal_below_thousand(current as nat);
    crate::kind::lemma_short_width(kind);
    let line = progress_line(current, total, lib, kind, dtype, ch);
    let name = library_name_of(lib);
    let a = "["@ + pad_start(decimal(current as nat), 3) + "/"@ + decimal(total as nat) + "] "@;
    let b = pad_end(name, 5) + " "@;
    let c = short_of(kind);
    let d = " "@ + pad_end(dtype, 3) + " "@ + decimal(ch as nat) + "ch ... "@;
    assert(line =~= a + b + c + d);
    let t = decimal(total as nat).len() as int;
    assert(a.len() == 7 + t);
    assert(b.len() == 6);
    assert(d.len() == 12 + decimal(ch as nat).len());
    assert(line.subrange(7 + t, 7 + t + name.len()) =~= name);
    assert(line.subrange(13 + t, 20 + t) =~= c);
    lemma_concat_ends(" "@ + pad_end(dtype, 3) + " "@, decimal(ch as nat) + "ch ... "@);
    assert(d =~= (" "@ + pad_end(dtype, 3) + " "@) + (decimal(ch as nat) + "ch ... "@));
    lemma_concat_ends(a + b + c, d);
    let e = decimal(ch as nat) + "ch ... "@;
    assert(line.subrange(line.len() - e.len(), line.len() as int) =~= e);
}

/// Whether `t` ends with `suffix`.
pub open spec fn ends_with(t: Seq<char>, suffix: Seq<char>) -> bool {
    t.len() >= suffix.len() && t.subrange(t.len() - suffix.len(), t.len() as int) == suffix
}

/// Whether `t` begins with `prefix`.
pub open spec fn starts_with(t: Seq<char>, prefix: Seq<char>) -> bool {
    t.len() >= prefix.len() && t.subrange(0, prefix.len() as int) == prefix
}

proof fn lemma_concat_ends(a: Seq<char>, b: Seq<char>)
    ensures
        ends_with(a + b, b),
        starts_with(a + b, a),
{
    assert((a + b).subrange(a.len() as int, (a + b).len() as int) =~= b);
    assert((a + b).subrange(0, a.len() as int) =~= a);
}

/// Table titles. Every title begins with the kind's label, a dash and the
/// signal length in seconds. The titles of streamed kinds end with the warmup
/// count followed by the chunk size, and then the cold-cache mark when it is
/// set; the titles of bulk kinds call the length the signal, end with the
/// warmup count and the cold-cache mark, and give no chunk size.
pub proof fn lemma_group_title_shape(
    kind: BenchKind,
    duration_secs: u64,
    iterations: usize,
    warmup: usize,
    chunk_size: usize,
    cold_cache: bool,
)
    ensures
        ({
            let t = group_title(kind, duration_secs, iterations, warmup, chunk_size, cold_cache);
            let mark = if cold_cache {
                " · cold-cache"@
            } else {
                ""@
            };
            let head = label_of(kind) + " — "@ + decimal(duration_secs as nat);
            &&& starts_with(t, head)
            &&& (kind == BenchKind::StreamedRead || kind == BenchKind::StreamedWrite) ==> ends_with(
                t,
                " "@ + decimal(warmup as nat) + " warmup · chunk "@ + decimal(chunk_size as nat)
                    + mark,
            )
            &&& (kind == BenchKind::Read || kind == BenchKind::Write) ==> {
                &&& starts_with(t, head + "s signal · "@)
                &&& ends_with(t, " "@ + decimal(warmup as nat) + " warmup"@ + mark)
            }
        }),
{
    let t = group_title(kind, duration_secs, iterations, warmup, chunk_size, cold_cache);
    let mark = cache_label(cold_cache);
    let head = label_of(kind) + " — "@ + decimal(duration_secs as nat);
    if kind == BenchKind::StreamedRead || kind == BenchKind::StreamedWrite {
        let mid = "s · "@ + decimal(iterations as nat) + " iters ·"@;
        let tail = " "@ + decimal(warmup as nat) + " warmup · chunk "@ + decimal(chunk_size as nat)
            + mark;
        reveal_strlit(" iters · ");
        reveal_strlit(" iters ·");
        reveal_strlit(" ");
        assert(" iters · "@ =~= " iters ·"@ + " "@);
        assert(t =~= (head + mid) + tail);
        lemma_concat_ends(head + mid, tail);
        lemma_concat_ends(head, mid + tail);
        assert(head + (mid + tail) =~= (head + mid) + tail);
    } else {
        let mid = "s signal · "@ + decimal(iterations as nat) + " iterations ·"@;
        let tail = " "@ + decimal(warmup as nat) + " warmup"@ + mark;
        reveal_strlit(" iterations · ");
        reveal_strlit(" iterations ·");
        reveal_strlit(" ");
        assert(" iterations · "@ =~= " iterations ·"@ + " "@);
        assert(t =~= (head + mid) + tail);
        lemma_concat_ends(head + mid, tail);
        let rest = decimal(iterations as nat) + " iterations ·"@ + tail;
        assert(t =~= (head + "s signal · "@) + rest);
        lemma_concat_ends(head + "s signal · "@, rest);
        lemma_concat_ends(head, "s signal · "@ + rest);
        assert(t =~= head + ("s signal · "@ + rest));
    }
}

/// The line printed in place of a table that has no results.
pub fn no_results_text(kind: BenchKind) -> (r: String)
    ensures
        r@ == no_results_line(kind),
{
    let mut r = String::new();
    append_str(&mut r, "[ ");
    append_str(&mut r, kind.label());
    append_str(&mut r, " — no results ]");
    assert(r@ =~= no_results_line(kind));
    r
}

/// The settings columns of a CSV line for one sample type and channel count.
pub fn csv_settings_text(
    kind: BenchKind,
    dtype: &str,
    ch: u32,
    duration_secs: u64,
    iterations: usize,
    warmup: usize,
    chunk_size: usize,
    cold_cache: bool,
) -> (r: String)
    ensures
        r@ == csv_settings(
            kind,
            dtype@,
            ch,
            duration_secs,
            iterations,
            warmup,
            chunk_size,
            cold_cache,
        ),
{
    let mut r = String::new();
    append_str(&mut r, kind.slug());
    append_str(&mut r, ",");
    append_str(&mut r, dtype);
    append_str(&mut r, ",");
    append_decimal(&mut r, ch as u64);
    append_str(&mut r, ",");
    append_decimal(&mut r, duration_secs);
    append_str(&mut r, ",");
    append_decimal(&mut r, iterations as u64);
    append_str(&mut r, ",");
    append_decimal(&mut r, warmup as u64);
    append_str(&mut r, ",");
    append_decimal(&mut r, chunk_size as u64);
    append_str(&mut r, ",");
    if cold_cache {
        append_str(&mut r, "1");
    } else {
        append_str(&mut r, "0");
    }
    assert(r@ =~= csv_settings(
        kind,
        dtype@,
        ch,
        duration_secs,
        iterations,
        warmup,
        chunk_size,
        cold_cache,
    ));
    r
}

/// The settings line of the Markdown report.
pub fn markdown_settings_text(
    duration_secs: u64,
    iterations: usize,
    warmup: usize,
    chunk_size: usize,
    cold_cache: bool,
) -> (r: String)
    ensures
        r@ == markdown_settings(duration_secs, iterations, warmup, chunk_size, cold_cache),
{
    let mut r = String::new();
    append_str(&mut r, "Signal: ");
    append_decimal(&mut r, duration_secs);
    append_str(&mut r, "s · Sample rate: 44 100 Hz · Iterations: ");
    append_decimal(&mut r, iterations as u64);
    append_str(&mut r, " · Warmup: ");
    append_decimal(&mut r, warmup as u64);
    append_str(&mut r, " · Chunk: ");
    append_decimal(&mut r, chunk_size as u64);
    if cold_cache {
        append_str(&mut r, " · **cold-cache**");
    } else {
        append_str(&mut r, "");
    }
    assert(r@ =~= markdown_settings(duration_secs, iterations, warmup, chunk_size, cold_cache));
    r
}

/// The line printed before a run starts, summarising its settings.
pub open spec fn run_banner(a: ArgsModel) -> Seq<char> {
    "Running: "@ + join(a.benches.map_values(|k: BenchKind| label_of(k)), ", "@) + " | dtypes: "@
        + join(a.dtypes, ", "@) + " | channels: "@ + join(
        a.channels.map_values(|c: u32| decimal(c as nat) + "ch"@),
        ", "@,
    ) + " | signal: "@ + decimal(a.duration_secs as nat) + "s | "@ + decimal(a.iterations as nat)
        + " iters / "@ + decimal(a.warmup as nat) + " warmup | chunk: "@ + decimal(
        a.chunk_size as nat,
    ) + cache_label(a.cold_cache)
}

/// The run banner begins with `Running: ` and the labels of the chosen kinds,
/// separated by commas, and ends with the chunk size followed by the
/// cold-cache mark when a cold cache is asked for.
pub proof fn lemma_run_banner_ends(a: ArgsModel)
    ensures
        ({
            let b = run_banner(a);
            let mark = if a.cold_cache {
                " · cold-cache"@
            } else {
                ""@
            };
            &&& starts_with(b, "Running: "@ + join(a.benches.map_values(|k: BenchKind| label_of(k)), ", "@))
            &&& ends_with(b, " | chunk: "@ + decimal(a.chunk_size as nat) + mark)
        }),
{
    let b = run_banner(a);
    let mark = cache_label(a.cold_cache);
    let head = "Running: "@ + join(a.benches.map_values(|k: BenchKind| label_of(k)), ", "@);
    let tail = " | chunk: "@ + decimal(a.chunk_size as nat) + mark;
    let mid = " | dtypes: "@ + join(a.dtypes, ", "@) + " | channels: "@ + join(
        a.channels.map_values(|c: u32| decimal(c as nat) + "ch"@),
        ", "@,
    ) + " | signal: "@ + decimal(a.duration_secs as nat) + "s | "@ + decimal(a.iterations as nat)
        + " iters / "@ + decimal(a.warmup as nat) + " warmup"@;
    reveal_strlit(" warmup | chunk: ");
    reveal_strlit(" warmup");
    reveal_strlit(" | chunk: ");
    assert(" warmup | chunk: "@ =~= " warmup"@ + " | chunk: "@);
    assert(b =~= head + mid + tail);
    lemma_concat_ends(head + mid, tail);
    lemma_concat_ends(head, mid + tail);
    assert(b =~= head + (mid + tail));
}

/// The line printed before a run starts.
pub fn run_banner_text(a: &Args) -> (r: String)
    ensures
        r@ == run_banner(a@),
{
    let mut labels: Vec<String> = Vec::new();
    let mut i: usize = 0;
    while i < a.benches.len()
        invariant
            i <= a.benches@.len(),
            labels@.len() == i,
            forall|k: int| 0 <= k < i ==> #[trigger] labels@[k]@ == label_of(a.benches@[k]),
        decreases a.benches@.len() - i,
    {
        labels.push(String::from_str(a.benches[i].label()));
        i = i + 1;
    }
    let mut chans: Vec<String> = Vec::new();
    let mut j: usize = 0;
    while j < a.channels.len()
        invariant
            j <= a.channels@.len(),
            chans@.len() == j,
            forall|k: int|
                0 <= k < j ==> #[trigger] chans@[k]@ == decimal(a.channels@[k] as nat) + "ch"@,
        decreases a.channels@.len() - j,
    {
        let mut c = String::new();
        append_decimal(&mut c, a.channels[j] as u64);
        append_str(&mut c, "ch");
        chans.push(c);
        j = j + 1;
    }
    let mut r = String::new();
    append_str(&mut r, "Running: ");
    append_joined(&mut r, &labels, ", ");
    append_str(&mut r, " | dtypes: ");
    append_joined(&mut r, &a.dtypes, ", ");
    append_str(&mut r, " | channels: ");
    append_joined(&mut r, &chans, ", ");
    append_str(&mut r, " | signal: ");
    append_decimal(&mut r, a.duration_secs);
    append_str(&mut r, "s | ");
    append_decimal(&mut r, a.iterations as u64);
    append_str(&mut r, " iters / ");
    append_decimal(&mut r, a.warmup as u64);
    append_str(&mut r, " warmup | chunk: ");
    append_decimal(&mut r, a.chunk_size as u64);
    append_cache_label(&mut r, a.cold_cache);
    proof {
        assert(labels@.map_values(|p: String| p@) =~= a@.benches.map_values(
            |k: BenchKind| label_of(k),
        ));
        assert(chans@.map_values(|p: String| p@) =~= a@.channels.map_values(
            |c: u32| decimal(c as nat) + "ch"@,
        ));
    }
    assert(r@ =~= run_banner(a@));
    r
}

/// The file name of a test signal: `sine_{secs}s_{dtype}_{ch}ch.wav`.
pub open spec fn signal_name(cfg: BenchConfig) -> Seq<char> {
    "sine_"@ + decimal(cfg.signal_duration_secs as nat) + "s_"@ + cfg.signal_dtype@ + "_"@
        + decimal(cfg.channels as nat) + "ch.wav"@
}

/// The WAV file that read benchmarks use: `resources/sine_{secs}s_{dtype}_{ch}ch.wav`.
pub open spec fn signal_path(cfg: BenchConfig) -> Seq<char> {
    "resources/"@ + signal_name(cfg)
}

/// The scratch file that write benchmarks create:
/// `resources/tmp/{prefix}_sine_{secs}s_{dtype}_{ch}ch.wav`.
pub open spec fn scratch_path(prefix: Seq<char>, cfg: BenchConfig) -> Seq<char> {
    "resources/tmp/"@ + prefix + "_"@ + signal_name(cfg)
}

fn append_signal_name(out: &mut String, cfg: &BenchConfig)
    ensures
        final(out)@ == old(out)@ + signal_name(*cfg),
{
    let ghost start = out@;
    append_str(out, "sine_");
    append_decimal(out, cfg.signal_duration_secs);
    append_str(out, "s_");
    append_str(out, cfg.signal_dtype.as_str());
    append_str(out, "_");
    append_decimal(out, cfg.channels as u64);
    append_str(out, "ch.wav");
    assert(out@ =~= start + signal_name(*cfg));
}

/// The WAV file that read benchmarks use.
pub fn signal_path_text(cfg: &BenchConfig) -> (r: String)
    ensures
        r@ == signal_path(*cfg),
{
    let mut r = String::new();
    append_str(&mut r, "resources/");
    append_signal_name(&mut r, cfg);
    assert(r@ =~= signal_path(*cfg));
    r
}

/// The scratch file that write benchmarks create.
pub fn scratch_path_text(prefix: &str, cfg: &BenchConfig) -> (r: String)
    ensures
        r@ == scratch_path(prefix@, *cfg),
{
    let mut r = String::new();
    append_str(&mut r, "resources/tmp/");
    append_str(&mut r, prefix);
    append_str(&mut r, "_");
    append_signal_name(&mut r, cfg);
    assert(r@ =~= scratch_path(prefix@, *cfg));
    r
}


/// One line of a group's Markdown table.
#[derive(Debug, Clone, Copy, PartialEq, Eq, Structural)]
pub enum MarkdownRow {
    /// The result of a library for the pair at this index.
    Measured(usize, Library),
    /// The blank line after a pair that has results.
    Spacer,
    /// The line that says the group has no results.
    NoResults,
}

/// The lines for the pair at index `i`, given which of the three libraries
/// have a result: their results in the order hound, aus, mmap, then a spacer
/// when there was any.
pub open spec fn pair_markdown_rows(i: int, present: (bool, bool, bool)) -> Seq<MarkdownRow> {
    (if present.0 {
        seq![MarkdownRow::Measured(i as usize, Library::Hound)]
    } else {
        Seq::empty()
    }) + (if present.1 {
        seq![MarkdownRow::Measured(i as usize, Library::Aus)]
    } else {
        Seq::empty()
    }) + (if present.2 {
        seq![MarkdownRow::Measured(i as usize, Library::Mmap)]
    } else {
        Seq::empty()
    }) + (if present.0 || present.1 || present.2 {
        seq![MarkdownRow::Spacer]
    } else {
        Seq::empty()
    })
}

/// The lines of the pairs, one pair after another.
pub open spec fn pairs_markdown_rows(present: Seq<(bool, bool, bool)>) -> Seq<MarkdownRow>
    decreases present.len(),
{
    if present.len() == 0 {
        Seq::empty()
    } else {
        pairs_markdown_rows(present.drop_last()) + pair_markdown_rows(
            present.len() - 1,
            present.last(),
        )
    }
}

/// The body of a group's Markdown table: the lines of its pairs, or the single
/// no-results line when no pair has a result.
pub open spec fn markdown_rows(present: Seq<(bool, bool, bool)>) -> Seq<MarkdownRow> {
    let body = pairs_markdown_rows(present);
    if body.len() == 0 {
        seq![MarkdownRow::NoResults]
    } else {
        body
    }
}

/// Lays out the body of a group's Markdown table from which libraries have a
/// result in each pair.
pub fn markdown_layout(present: &[(bool, bool, bool)]) -> (r: Vec<MarkdownRow>)
    ensures
        r@ == markdown_rows(present@),
{
    let mut r: Vec<MarkdownRow> = Vec::new();
    let mut i: usize = 0;
    while i < present.len()
        invariant
            i <= present@.len(),
            r@ == pairs_markdown_rows(present@.take(i as int)),
        decreases present@.len() - i,
    {
        let (h, a, m) = present[i];
        let ghost before = r@;
        if h {
            r.push(MarkdownRow::Measured(i, Library::Hound));
        }
        if a {
            r.push(MarkdownRow::Measured(i, Library::Aus));
        }
        if m {
            r.push(MarkdownRow::Measured(i, Library::Mmap));
        }
        if h || a || m {
            r.push(MarkdownRow::Spacer);
        }
        proof {
            let t = present@.take(i + 1);
            assert(t.drop_last() =~= present@.take(i as int));
            assert(t.last() == present@[i as int]);
            assert(r@ =~= before + pair_markdown_rows(i as int, present@[i as int]));
        }
        i = i + 1;
    }
    assert(present@.take(present@.len() as int) =~= present@);
    if r.len() == 0 {
        r.push(MarkdownRow::NoResults);
        assert(r@ =~= seq![MarkdownRow::NoResults]);
    }
    r
}

proof fn lemma_decimal_has_no_comma(n: nat)
    ensures
        !decimal(n).contains(','),
{
    lemma_decimal_is_digits(n);
    if decimal(n).contains(',') {
        let i = choose|i: int| 0 <= i < decimal(n).len() && decimal(n)[i] == ',';
        assert(is_digit(decimal(n)[i]));
    }
}

/// The settings columns of a CSV row read back as written: split at commas,
/// the text gives the kind's slug, the type name, the four numbers in
/// decimal and the cache flag, provided the type name holds no comma.
pub proof fn lemma_csv_fields(
    kind: BenchKind,
    dtype: Seq<char>,
    ch: u32,
    duration_secs: u64,
    iterations: usize,
    warmup: usize,
    chunk_size: usize,
    cold_cache: bool,
)
    requires
        !dtype.contains(','),
    ensures
        split(
            csv_settings(kind, dtype, ch, duration_secs, iterations, warmup, chunk_size, cold_cache),
            ',',
        ) == seq![
            slug_of(kind),
            dtype,
            decimal(ch as nat),
            decimal(duration_secs as nat),
            decimal(iterations as nat),
            decimal(warmup as nat),
            decimal(chunk_size as nat),
            if cold_cache { "1"@ } else { "0"@ },
        ],
{
    reveal_strlit(",");
    reveal_strlit("1");
    reveal_strlit("0");
    let c = ',';
    let p0 = slug_of(kind);
    let p1 = dtype;
    let p2 = decimal(ch as nat);
    let p3 = decimal(duration_secs as nat);
    let p4 = decimal(iterations as nat);
    let p5 = decimal(warmup as nat);
    let p6 = decimal(chunk_size as nat);
    let p7: Seq<char> = if cold_cache { "1"@ } else { "0"@ };
    lemma_slug_has_no_comma(kind);
    lemma_decimal_has_no_comma(ch as nat);
    lemma_decimal_has_no_comma(duration_secs as nat);
    lemma_decimal_has_no_comma(iterations as nat);
    lemma_decimal_has_no_comma(warmup as nat);
    lemma_decimal_has_no_comma(chunk_size as nat);
    assert(!p7.contains(',')) by {
        if p7.contains(',') {
            let i = choose|i: int| 0 <= i < p7.len() && p7[i] == ',';
            assert(p7[i] != ',');
        }
    }
    lemma_split_single(p0, c);
    lemma_split_single(p1, c);
    lemma_split_single(p2, c);
    lemma_split_single(p3, c);
    lemma_split_single(p4, c);
    lemma_split_single(p5, c);
    lemma_split_single(p6, c);
    lemma_split_single(p7, c);
    let a1 = p0 + seq![c] + p1;
    let a2 = a1 + seq![c] + p2;
    let a3 = a2 + seq![c] + p3;
    let a4 = a3 + seq![c] + p4;
    let a5 = a4 + seq![c] + p5;
    let a6 = a5 + seq![c] + p6;
    let a7 = a6 + seq![c] + p7;
    lemma_split_join(p0, p1, c);
    lemma_split_join(a1, p2, c);
    lemma_split_join(a2, p3, c);
    lemma_split_join(a3, p4, c);
    lemma_split_join(a4, p5, c);
    lemma_split_join(a5, p6, c);
    lemma_split_join(a6, p7, c);
    assert(","@ == seq![c]);
    assert(csv_settings(kind, dtype, ch, duration_secs, iterations, warmup, chunk_size, cold_cache)
        == a7);
    assert(split(a7, c) =~= seq![p0, p1, p2, p3, p4, p5, p6, p7]);
}

} // verus!
