use vstd::prelude::*;

use crate::kind::{kind_named, lemma_slug_has_no_comma, lemma_slug_names_kind, slug_of, BenchKind};
use crate::lexical::{
    is_white_space, lemma_split_join, lemma_split_single, parse_unsigned, parse_unsigned_str, split,
    split_str, trim, trim_end, trim_start, trim_str,
};
use crate::text::{append_str, join, str_equals};

verus! {

/// Benchmark settings taken from the command line.
#[derive(Debug, Clone)]
pub struct Args {
    pub dtypes: Vec<String>,
    pub channels: Vec<u32>,
    pub duration_secs: u64,
    pub iterations: usize,
    pub warmup: usize,
    pub chunk_size: usize,
    pub benches: Vec<BenchKind>,
    pub output: String,
    pub cold_cache: bool,
}

/// The settings of an [`Args`], as mathematical values.
pub struct ArgsModel {
    pub dtypes: Seq<Seq<char>>,
    pub channels: Seq<u32>,
    pub duration_secs: u64,
    pub iterations: usize,
    pub warmup: usize,
    pub chunk_size: usize,
    pub benches: Seq<BenchKind>,
    pub output: Seq<char>,
    pub cold_cache: bool,
}

impl View for Args {
    type V = ArgsModel;

    open spec fn view(&self) -> ArgsModel {
        ArgsModel {
            dtypes: self.dtypes@.map_values(|s: String| s@),
            channels: self.channels@,
            duration_secs: self.duration_secs,
            iterations: self.iterations,
            warmup: self.warmup,
            chunk_size: self.chunk_size,
            benches: self.benches@,
            output: self.output@,
            cold_cache: self.cold_cache,
        }
    }
}

/// What the command line asks for.
#[derive(Debug)]
pub enum Command {
    /// Show the usage text and stop.
    Help,
    /// Run the benchmarks with these settings.
    Run(Args),
}

/// The settings when no option is given.
pub open spec fn default_args() -> ArgsModel {
    ArgsModel {
        dtypes: seq!["i16"@, "i32"@, "f32"@],
        channels: seq![1u32, 2u32],
        duration_secs: 10,
        iterations: 1000,
        warmup: 100,
        chunk_size: 4096,
        benches: seq![
            BenchKind::Read,
            BenchKind::Write,
            BenchKind::StreamedRead,
            BenchKind::StreamedWrite,
        ],
        output: "results"@,
        cold_cache: false,
    }
}

/// The error for an option given without its value.
pub open spec fn missing_value(flag: Seq<char>) -> Seq<char> {
    flag + " requires a value"@
}

/// The sample types of a `--dtype` value: its comma-separated pieces, trimmed.
pub open spec fn dtype_list(v: Seq<char>) -> Seq<Seq<char>> {
    split(v, ',').map_values(|p: Seq<char>| trim(p))
}

/// The channel counts of comma-separated pieces; the first piece that is not a
/// `u32` once trimmed gives the error, which quotes it untrimmed.
pub open spec fn channel_list(pieces: Seq<Seq<char>>) -> Result<Seq<u32>, Seq<char>>
    decreases pieces.len(),
{
    if pieces.len() == 0 {
        Ok(Seq::empty())
    } else {
        match channel_list(pieces.drop_last()) {
            Err(e) => Err(e),
            Ok(cs) => match parse_unsigned(trim(pieces.last()), u32::MAX as nat) {
                Some(n) => Ok(cs.push(n as u32)),
                None => Err("invalid channel count: "@ + pieces.last()),
            },
        }
    }
}

/// The error for a benchmark name that is not known.
pub open spec fn unknown_bench(name: Seq<char>) -> Seq<char> {
    "unknown bench: "@ + name + " (valid: read, write, streamed-read, streamed-write)"@
}

/// The kinds of comma-separated pieces; the first piece that, trimmed, names no
/// kind gives the error, which quotes it trimmed.
pub open spec fn bench_list(pieces: Seq<Seq<char>>) -> Result<Seq<BenchKind>, Seq<char>>
    decreases pieces.len(),
{
    if pieces.len() == 0 {
        Ok(Seq::empty())
    } else {
        match bench_list(pieces.drop_last()) {
            Err(e) => Err(e),
            Ok(ks) => match kind_named(trim(pieces.last())) {
                Some(k) => Ok(ks.push(k)),
                None => Err(unknown_bench(trim(pieces.last()))),
            },
        }
    }
}

/// The effect of one argument: the end of reading, or the settings after it
/// together with whether it took the next argument as its value.
pub enum Step {
    Stop(Result<Option<ArgsModel>, Seq<char>>),
    Advance(bool, ArgsModel),
}

/// Reads the argument at position `i` (which exists) with the settings `m`.
pub open spec fn parse_step(argv: Seq<Seq<char>>, i: int, m: ArgsModel) -> Step {
    let a = argv[i];
    let has_value = i + 1 < argv.len();
    let v = argv[i + 1];
    if a == "--help"@ || a == "-h"@ {
        Step::Stop(Ok(None))
    } else if a == "--cold-cache"@ {
        Step::Advance(false, ArgsModel { cold_cache: true, ..m })
    } else if !(a == "--dtype"@ || a == "--channels"@ || a == "--duration"@ || a
        == "--iterations"@ || a == "--warmup"@ || a == "--chunk-size"@ || a == "--bench"@ || a
        == "--output"@) {
        Step::Stop(Err("unknown argument: "@ + a))
    } else if !has_value {
        Step::Stop(Err(missing_value(a)))
    } else if a == "--dtype"@ {
        Step::Advance(true, ArgsModel { dtypes: dtype_list(v), ..m })
    } else if a == "--channels"@ {
        match channel_list(split(v, ',')) {
            Ok(cs) => Step::Advance(true, ArgsModel { channels: cs, ..m }),
            Err(e) => Step::Stop(Err(e)),
        }
    } else if a == "--duration"@ {
        match parse_unsigned(v, u64::MAX as nat) {
            Some(n) => Step::Advance(true, ArgsModel { duration_secs: n as u64, ..m }),
            None => Step::Stop(Err("invalid duration: "@ + v)),
        }
    } else if a == "--iterations"@ {
        match parse_unsigned(v, usize::MAX as nat) {
            Some(n) => Step::Advance(true, ArgsModel { iterations: n as usize, ..m }),
            None => Step::Stop(Err("invalid iterations: "@ + v)),
        }
    } else if a == "--warmup"@ {
        match parse_unsigned(v, usize::MAX as nat) {
            Some(n) => Step::Advance(true, ArgsModel { warmup: n as usize, ..m }),
            None => Step::Stop(Err("invalid warmup: "@ + v)),
        }
    } else if a == "--chunk-size"@ {
        match parse_unsigned(v, usize::MAX as nat) {
            Some(n) => Step::Advance(true, ArgsModel { chunk_size: n as usize, ..m }),
            None => Step::Stop(Err("invalid chunk-size: "@ + v)),
        }
    } else if a == "--bench"@ {
        match bench_list(split(v, ',')) {
            Ok(ks) => Step::Advance(true, ArgsModel { benches: ks, ..m }),
            Err(e) => Step::Stop(Err(e)),
        }
    } else {
        Step::Advance(true, ArgsModel { output: v, ..m })
    }
}

/// Reads the arguments from position `i` on, starting from the settings `m`.
/// `Ok(None)` asks for the usage text; later options override earlier ones.
pub open spec fn parse_args_from(argv: Seq<Seq<char>>, i: int, m: ArgsModel) -> Result<
    Option<ArgsModel>,
    Seq<char>,
>
    decreases argv.len() - i,
{
    if i < 0 || i >= argv.len() {
        Ok(Some(m))
    } else {
        match parse_step(argv, i, m) {
            Step::Stop(r) => r,
            Step::Advance(took_value, m2) => if took_value {
                parse_args_from(argv, i + 2, m2)
            } else {
                parse_args_from(argv, i + 1, m2)
            },
        }
    }
}

/// What a command line (without the program name) asks for.
pub open spec fn parse_args(argv: Seq<Seq<char>>) -> Result<Option<ArgsModel>, Seq<char>> {
    parse_args_from(argv, 0, default_args())
}

/// `prefix` followed by `s`, as a new string.
fn concat_str(prefix: &str, s: &str) -> (r: String)
    ensures
        r@ == prefix@ + s@,
{
    let mut r = String::new();
    append_str(&mut r, prefix);
    append_str(&mut r, s);
    assert(r@ =~= prefix@ + s@);
    r
}

/// The trimmed comma-separated pieces of `v`.
fn parse_dtype_list(v: &str) -> (r: Vec<String>)
    ensures
        r@.map_values(|s: String| s@) == dtype_list(v@),
{
    let pieces = split_str(v, ',');
    let ghost pv = pieces@.map_values(|p: String| p@);
    let mut out: Vec<String> = Vec::new();
    let mut i: usize = 0;
    while i < pieces.len()
        invariant
            i <= pieces@.len(),
            pv == pieces@.map_values(|p: String| p@),
            pv == split(v@, ','),
            out@.len() == i,
            out@.map_values(|s: String| s@) == pv.take(i as int).map_values(
                |p: Seq<char>| trim(p),
            ),
        decreases pieces@.len() - i,
    {
        let t = trim_str(pieces[i].as_str());
        assert(pv[i as int] == pieces@[i as int]@);
        let ghost prev = out@;
        out.push(t);
        assert(out@[i as int]@ == trim(pv[i as int]));
        assert forall|k: int| 0 <= k < i implies out@[k]@ == trim(pv[k]) by {
            assert(out@[k] == prev[k]);
            assert(prev.map_values(|s: String| s@)[k] == pv.take(i as int).map_values(
                |p: Seq<char>| trim(p),
            )[k]);
        }
        i = i + 1;
        assert(out@.map_values(|s: String| s@) =~= pv.take(i as int).map_values(
            |p: Seq<char>| trim(p),
        ));
    }
    assert(pv.take(pieces@.len() as int) =~= pv);
    out
}

/// The channel counts of the comma-separated pieces of `v`.
fn parse_channel_list(v: &str) -> (r: Result<Vec<u32>, String>)
    ensures
        match r {
            Ok(cs) => channel_list(split(v@, ',')) == Ok::<Seq<u32>, Seq<char>>(cs@),
            Err(e) => channel_list(split(v@, ',')) == Err::<Seq<u32>, Seq<char>>(e@),
        },
{
    let pieces = split_str(v, ',');
    let ghost pv = pieces@.map_values(|p: String| p@);
    let mut out: Vec<u32> = Vec::new();
    let mut i: usize = 0;
    assert(pv.take(0) =~= Seq::<Seq<char>>::empty());
    while i < pieces.len()
        invariant
            i <= pieces@.len(),
            pv == pieces@.map_values(|p: String| p@),
            pv == split(v@, ','),
            channel_list(pv.take(i as int)) == Ok::<Seq<u32>, Seq<char>>(out@),
        decreases pieces@.len() - i,
    {
        assert(pv.take(i + 1).drop_last() =~= pv.take(i as int));
        assert(pv.take(i + 1).last() == pieces@[i as int]@);
        let t = trim_str(pieces[i].as_str());
        match parse_unsigned_str(t.as_str(), u32::MAX as u64) {
            Some(n) => {
                out.push(n as u32);
            },
            None => {
                let e = concat_str("invalid channel count: ", pieces[i].as_str());
                proof {
                    lemma_channel_error_stays(pv, i as int + 1);
                    assert(pv.take(pv.len() as int) =~= pv);
                }
                return Err(e);
            },
        }
        i = i + 1;
    }
    assert(pv.take(pieces@.len() as int) =~= pv);
    Ok(out)
}

proof fn lemma_channel_error_stays(pv: Seq<Seq<char>>, k: int)
    requires
        0 <= k <= pv.len(),
        channel_list(pv.take(k)) is Err,
    ensures
        channel_list(pv.take(pv.len() as int)) == channel_list(pv.take(k)),
    decreases pv.len() - k,
{
    if k < pv.len() {
        assert(pv.take(k + 1).drop_last() =~= pv.take(k));
        lemma_channel_error_stays(pv, k + 1);
    }
}

proof fn lemma_bench_error_stays(pv: Seq<Seq<char>>, k: int)
    requires
        0 <= k <= pv.len(),
        bench_list(pv.take(k)) is Err,
    ensures
        bench_list(pv.take(pv.len() as int)) == bench_list(pv.take(k)),
    decreases pv.len() - k,
{
    if k < pv.len() {
        assert(pv.take(k + 1).drop_last() =~= pv.take(k));
        lemma_bench_error_stays(pv, k + 1);
    }
}

/// The benchmark kinds named by the comma-separated pieces of `v`.
fn parse_bench_list(v: &str) -> (r: Result<Vec<BenchKind>, String>)
    ensures
        match r {
            Ok(ks) => bench_list(split(v@, ',')) == Ok::<Seq<BenchKind>, Seq<char>>(ks@),
            Err(e) => bench_list(split(v@, ',')) == Err::<Seq<BenchKind>, Seq<char>>(e@),
        },
{
    let pieces = split_str(v, ',');
    let ghost pv = pieces@.map_values(|p: String| p@);
    let mut out: Vec<BenchKind> = Vec::new();
    let mut i: usize = 0;
    assert(pv.take(0) =~= Seq::<Seq<char>>::empty());
    while i < pieces.len()
        invariant
            i <= pieces@.len(),
            pv == pieces@.map_values(|p: String| p@),
            pv == split(v@, ','),
            bench_list(pv.take(i as int)) == Ok::<Seq<BenchKind>, Seq<char>>(out@),
        decreases pieces@.len() - i,
    {
        assert(pv.take(i + 1).drop_last() =~= pv.take(i as int));
        assert(pv.take(i + 1).last() == pieces@[i as int]@);
        let t = trim_str(pieces[i].as_str());
        match BenchKind::from_name(t.as_str()) {
            Some(k) => {
                out.push(k);
            },
            None => {
                let mut e = concat_str("unknown bench: ", t.as_str());
                append_str(&mut e, " (valid: read, write, streamed-read, streamed-write)");
                proof {
                    lemma_bench_error_stays(pv, i as int + 1);
                    assert(pv.take(pv.len() as int) =~= pv);
                    assert(e@ =~= unknown_bench(t@));
                }
                return Err(e);
            },
        }
        i = i + 1;
    }
    assert(pv.take(pieces@.len() as int) =~= pv);
    Ok(out)
}

/// The views of a list of arguments.
pub open spec fn argv_view(argv: Seq<String>) -> Seq<Seq<char>> {
    argv.map_values(|s: String| s@)
}

/// `flag` followed by " requires a value".
fn missing_value_error(flag: &str) -> (r: String)
    ensures
        r@ == missing_value(flag@),
{
    concat_str(flag, " requires a value")
}

impl Args {
    /// The settings when no option is given.
    pub fn defaults() -> (a: Args)
        ensures
            a@ == default_args(),
    {
        let mut dtypes: Vec<String> = Vec::new();
        dtypes.push(String::from_str("i16"));
        dtypes.push(String::from_str("i32"));
        dtypes.push(String::from_str("f32"));
        let mut channels: Vec<u32> = Vec::new();
        channels.push(1);
        channels.push(2);
        let mut benches: Vec<BenchKind> = Vec::new();
        benches.push(BenchKind::Read);
        benches.push(BenchKind::Write);
        benches.push(BenchKind::StreamedRead);
        benches.push(BenchKind::StreamedWrite);
        let a = Args {
            dtypes,
            channels,
            duration_secs: 10,
            iterations: 1000,
            warmup: 100,
            chunk_size: 4096,
            benches,
            output: String::from_str("results"),
            cold_cache: false,
        };
        assert(a@.dtypes =~= default_args().dtypes);
        assert(a@.channels =~= default_args().channels);
        assert(a@.benches =~= default_args().benches);
        a
    }

    /// Reads the command-line arguments (the program name left out). Options
    /// are read in order, a later one overriding an earlier one; `--help` or
    /// `-h` asks for the usage text as soon as it is reached; the first
    /// missing or invalid value, or unknown argument, is the error.
    pub fn parse(argv: &[String]) -> (r: Result<Command, String>)
        ensures
            match r {
                Ok(Command::Help) => parse_args(argv_view(argv@)) == Ok::<
                    Option<ArgsModel>,
                    Seq<char>,
                >(None),
                Ok(Command::Run(a)) => parse_args(argv_view(argv@)) == Ok::<
                    Option<ArgsModel>,
                    Seq<char>,
                >(Some(a@)),
                Err(e) => parse_args(argv_view(argv@)) == Err::<Option<ArgsModel>, Seq<char>>(e@),
            },
    {
        let ghost av = argv_view(argv@);
        let mut a = Args::defaults();
        let n = argv.len();
        let mut i: usize = 0;
        while i < n
            invariant
                n == argv@.len(),
                av == argv_view(argv@),
                i <= n,
                parse_args(av) == parse_args_from(av, i as int, a@),
            decreases n - i,
        {
            let arg = argv[i].as_str();
            assert(arg@ == av[i as int]);
            let has_value = i + 1 < n;
            if has_value {
                assert(argv[i + 1]@ == av[i + 1]);
            }
            if str_equals(arg, "--help") || str_equals(arg, "-h") {
                return Ok(Command::Help);
            } else if str_equals(arg, "--cold-cache") {
                a.cold_cache = true;
                i = i + 1;
            } else if str_equals(arg, "--dtype") {
                if !has_value {
                    return Err(missing_value_error(arg));
                }
                a.dtypes = parse_dtype_list(argv[i + 1].as_str());
                i = i + 2;
            } else if str_equals(arg, "--channels") {
                if !has_value {
                    return Err(missing_value_error(arg));
                }
                match parse_channel_list(argv[i + 1].as_str()) {
                    Ok(cs) => {
                        a.channels = cs;
                    },
                    Err(e) => {
                        return Err(e);
                    },
                }
                i = i + 2;
            } else if str_equals(arg, "--duration") {
                if !has_value {
                    return Err(missing_value_error(arg));
                }
                let v = argv[i + 1].as_str();
                match parse_unsigned_str(v, u64::MAX) {
                    Some(x) => {
                        a.duration_secs = x;
                    },
                    None => {
                        return Err(concat_str("invalid duration: ", v));
                    },
                }
                i = i + 2;
            } else if str_equals(arg, "--iterations") {
                if !has_value {
                    return Err(missing_value_error(arg));
                }
                let v = argv[i + 1].as_str();
                match parse_unsigned_str(v, usize::MAX as u64) {
                    Some(x) => {
                        a.iterations = x as usize;
                    },
                    None => {
                        return Err(concat_str("invalid iterations: ", v));
                    },
                }
                i = i + 2;
            } else if str_equals(arg, "--warmup") {
                if !has_value {
                    return Err(missing_value_error(arg));
                }
                let v = argv[i + 1].as_str();
                match parse_unsigned_str(v, usize::MAX as u64) {
                    Some(x) => {
                        a.warmup = x as usize;
                    },
                    None => {
                        return Err(concat_str("invalid warmup: ", v));
                    },
                }
                i = i + 2;
            } else if str_equals(arg, "--chunk-size") {
                if !has_value {
                    return Err(missing_value_error(arg));
                }
                let v = argv[i + 1].as_str();
                match parse_unsigned_str(v, usize::MAX as u64) {
                    Some(x) => {
                        a.chunk_size = x as usize;
                    },
                    None => {
                        return Err(concat_str("invalid chunk-size: ", v));
                    },
                }
                i = i + 2;
            } else if str_equals(arg, "--bench") {
                if !has_value {
                    return Err(missing_value_error(arg));
                }
                match parse_bench_list(argv[i + 1].as_str()) {
                    Ok(ks) => {
                        a.benches = ks;
                    },
                    Err(e) => {
                        return Err(e);
                    },
                }
                i = i + 2;
            } else if str_equals(arg, "--output") {
                if !has_value {
                    return Err(missing_value_error(arg));
                }
                a.output = argv[i + 1].clone();
                i = i + 2;
            } else {
                return Err(concat_str("unknown argument: ", arg));
            }
        }
        Ok(Command::Run(a))
    }
}

proof fn lemma_step_shift(argv: Seq<Seq<char>>, tail: Seq<Seq<char>>, i: int, m: ArgsModel)
    requires
        0 <= i < tail.len(),
    ensures
        parse_step(argv + tail, argv.len() + i, m) == parse_step(tail, i, m),
{
    let all = argv + tail;
    assert(all[argv.len() + i] == tail[i]);
    if i + 1 < tail.len() {
        assert(all[argv.len() + i + 1] == tail[i + 1]);
    }
}

proof fn lemma_parse_shift(argv: Seq<Seq<char>>, tail: Seq<Seq<char>>, i: int, m: ArgsModel)
    requires
        0 <= i,
    ensures
        parse_args_from(argv + tail, argv.len() + i, m) == parse_args_from(tail, i, m),
    decreases tail.len() - i,
{
    if i < tail.len() {
        lemma_step_shift(argv, tail, i, m);
        match parse_step(tail, i, m) {
            Step::Stop(_) => {},
            Step::Advance(took_value, m2) => {
                if took_value {
                    lemma_parse_shift(argv, tail, i + 2, m2);
                } else {
                    lemma_parse_shift(argv, tail, i + 1, m2);
                }
            },
        }
    }
}

proof fn lemma_step_prefix(argv: Seq<Seq<char>>, tail: Seq<Seq<char>>, i: int, m: ArgsModel)
    requires
        0 <= i < argv.len(),
        !(parse_step(argv, i, m) matches Step::Stop(Err(_))),
    ensures
        parse_step(argv + tail, i, m) == parse_step(argv, i, m),
{
    let all = argv + tail;
    assert(all[i] == argv[i]);
    if i + 1 < argv.len() {
        assert(all[i + 1] == argv[i + 1]);
    }
}

proof fn lemma_parse_prefix(argv: Seq<Seq<char>>, tail: Seq<Seq<char>>, i: int, m: ArgsModel)
    requires
        0 <= i <= argv.len(),
        parse_args_from(argv, i, m) is Ok,
    ensures
        match parse_args_from(argv, i, m) {
            Ok(Some(m2)) => parse_args_from(argv + tail, i, m) == parse_args_from(tail, 0, m2),
            _ => parse_args_from(argv + tail, i, m) == parse_args_from(argv, i, m),
        },
    decreases argv.len() - i,
{
    if i == argv.len() {
        lemma_parse_shift(argv, tail, 0, m);
    } else {
        lemma_step_prefix(argv, tail, i, m);
        match parse_step(argv, i, m) {
            Step::Stop(_) => {},
            Step::Advance(took_value, m2) => {
                if took_value {
                    lemma_parse_prefix(argv, tail, i + 2, m2);
                } else {
                    lemma_parse_prefix(argv, tail, i + 1, m2);
                }
            },
        }
    }
}

/// Options are read one after another: a command line that yields settings,
/// followed by more arguments, reads those arguments on top of its settings;
/// a command line that asks for the usage text still does so whatever follows.
pub proof fn lemma_options_compose(first: Seq<Seq<char>>, rest: Seq<Seq<char>>)
    requires
        parse_args(first) is Ok,
    ensures
        match parse_args(first) {
            Ok(Some(m)) => parse_args(first + rest) == parse_args_from(rest, 0, m),
            _ => parse_args(first + rest) == Ok::<Option<ArgsModel>, Seq<char>>(None),
        },
{
    lemma_parse_prefix(first, rest, 0, default_args());
}


/// The slugs of a list of kinds.
pub open spec fn slugs(kinds: Seq<BenchKind>) -> Seq<Seq<char>> {
    kinds.map_values(|k: BenchKind| slug_of(k))
}

proof fn lemma_slug_trimmed(kind: BenchKind)
    ensures
        trim(slug_of(kind)) == slug_of(kind),
{
    reveal_strlit("read");
    reveal_strlit("write");
    reveal_strlit("streamed-read");
    reveal_strlit("streamed-write");
    let s = slug_of(kind);
    assert(s.len() > 0 && !is_white_space(s[0]) && !is_white_space(s.last()));
    assert(trim_start(s) == s);
    assert(trim_end(s) == s);
}

proof fn lemma_split_slugs(kinds: Seq<BenchKind>)
    requires
        kinds.len() > 0,
    ensures
        split(join(slugs(kinds), ","@), ',') == slugs(kinds),
    decreases kinds.len(),
{
    reveal_strlit(",");
    let last = kinds.last();
    lemma_slug_has_no_comma(last);
    lemma_split_single(slug_of(last), ',');
    if kinds.len() == 1 {
        assert(join(slugs(kinds), ","@) == slug_of(last));
        assert(slugs(kinds) =~= seq![slug_of(last)]);
    } else {
        let init = kinds.drop_last();
        lemma_split_slugs(init);
        assert(slugs(kinds).drop_last() =~= slugs(init));
        assert(","@ =~= seq![',']);
        assert(join(slugs(kinds), ","@) == join(slugs(init), ","@) + seq![','] + slug_of(last));
        lemma_split_join(join(slugs(init), ","@), slug_of(last), ',');
        assert(slugs(init) + seq![slug_of(last)] =~= slugs(kinds));
    }
}

proof fn lemma_bench_list_slugs(kinds: Seq<BenchKind>)
    ensures
        bench_list(slugs(kinds)) == Ok::<Seq<BenchKind>, Seq<char>>(kinds),
    decreases kinds.len(),
{
    if kinds.len() > 0 {
        let init = kinds.drop_last();
        lemma_bench_list_slugs(init);
        assert(slugs(kinds).drop_last() =~= slugs(init));
        lemma_slug_trimmed(kinds.last());
        lemma_slug_names_kind(kinds.last());
        assert(init.push(kinds.last()) =~= kinds);
    } else {
        assert(slugs(kinds) =~= Seq::<Seq<char>>::empty());
        assert(kinds =~= Seq::<BenchKind>::empty());
    }
}

/// Naming benchmarks by their slugs reads back the same kinds: `--bench`
/// followed by the slugs of any non-empty list of kinds, joined by commas,
/// selects exactly those kinds, in that order and with their repeats, and
/// leaves every other setting at its default.
pub proof fn lemma_bench_round_trip(kinds: Seq<BenchKind>)
    requires
        kinds.len() > 0,
    ensures
        parse_args(seq!["--bench"@, join(slugs(kinds), ","@)]) == Ok::<
            Option<ArgsModel>,
            Seq<char>,
        >(Some(ArgsModel { benches: kinds, ..default_args() })),
{
    reveal_strlit("--bench");
    reveal_strlit("--help");
    reveal_strlit("-h");
    reveal_strlit("--cold-cache");
    reveal_strlit("--dtype");
    reveal_strlit("--channels");
    reveal_strlit("--duration");
    reveal_strlit("--iterations");
    reveal_strlit("--warmup");
    reveal_strlit("--chunk-size");
    let argv = seq!["--bench"@, join(slugs(kinds), ","@)];
    let a = "--bench"@;
    assert(a != "--help"@ && a != "-h"@ && a != "--cold-cache"@ && a != "--channels"@ && a
        != "--duration"@ && a != "--iterations"@ && a != "--warmup"@ && a != "--chunk-size"@);
    assert(a != "--dtype"@) by {
        assert(a[2] != "--dtype"@[2]);
    }
    lemma_split_slugs(kinds);
    lemma_bench_list_slugs(kinds);
    let m = default_args();
    assert(argv[0] == a);
    assert(argv[1] == join(slugs(kinds), ","@));
    let m2 = ArgsModel { benches: kinds, ..m };
    assert(parse_step(argv, 0, m) == Step::Advance(true, m2));
    assert(parse_args_from(argv, 2, m2) == Ok::<Option<ArgsModel>, Seq<char>>(Some(m2)));
    assert(parse_args_from(argv, 0, m) == parse_args_from(argv, 2, m2));
}

} // verus!
