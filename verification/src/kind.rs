use vstd::prelude::*;

use crate::text::str_equals;

verus! {

/// The four operations that the benchmark measures.
#[derive(Debug, Clone, Copy, PartialEq, Eq, Structural)]
pub enum BenchKind {
    Read,
    Write,
    StreamedRead,
    StreamedWrite,
}

/// Human-readable name of a kind, as used in table titles.
pub open spec fn label_of(kind: BenchKind) -> Seq<char> {
    match kind {
        BenchKind::Read => "Read"@,
        BenchKind::Write => "Write"@,
        BenchKind::StreamedRead => "Streamed Read"@,
        BenchKind::StreamedWrite => "Streamed Write"@,
    }
}

/// Name of a kind in file names, CSV output and on the command line.
pub open spec fn slug_of(kind: BenchKind) -> Seq<char> {
    match kind {
        BenchKind::Read => "read"@,
        BenchKind::Write => "write"@,
        BenchKind::StreamedRead => "streamed-read"@,
        BenchKind::StreamedWrite => "streamed-write"@,
    }
}

/// Seven-character name of a kind, for progress lines.
pub open spec fn short_of(kind: BenchKind) -> Seq<char> {
    match kind {
        BenchKind::Read => "read   "@,
        BenchKind::Write => "write  "@,
        BenchKind::StreamedRead => "s-read "@,
        BenchKind::StreamedWrite => "s-write"@,
    }
}

/// The kind a command-line name stands for, if any.
pub open spec fn kind_named(name: Seq<char>) -> Option<BenchKind> {
    if name == "read"@ {
        Some(BenchKind::Read)
    } else if name == "write"@ {
        Some(BenchKind::Write)
    } else if name == "streamed-read"@ {
        Some(BenchKind::StreamedRead)
    } else if name == "streamed-write"@ {
        Some(BenchKind::StreamedWrite)
    } else {
        None
    }
}

impl BenchKind {
    /// Human-readable name of the kind.
    pub fn label(self) -> (r: &'static str)
        ensures
            r@ == label_of(self),
    {
        match self {
            BenchKind::Read => "Read",
            BenchKind::Write => "Write",
            BenchKind::StreamedRead => "Streamed Read",
            BenchKind::StreamedWrite => "Streamed Write",
        }
    }
}

impl BenchKind {
    /// Name of the kind in file names, CSV output and on the command line.
    pub fn slug(self) -> (r: &'static str)
        ensures
            r@ == slug_of(self),
    {
        match self {
            BenchKind::Read => "read",
            BenchKind::Write => "write",
            BenchKind::StreamedRead => "streamed-read",
            BenchKind::StreamedWrite => "streamed-write",
        }
    }

    /// Seven-character name of the kind, for progress lines.
    pub fn short(self) -> (r: &'static str)
        ensures
            r@ == short_of(self),
    {
        match self {
            BenchKind::Read => "read   ",
            BenchKind::Write => "write  ",
            BenchKind::StreamedRead => "s-read ",
            BenchKind::StreamedWrite => "s-write",
        }
    }

    /// The kind that a command-line name stands for.
    pub fn from_name(name: &str) -> (r: Option<BenchKind>)
        ensures
            r == kind_named(name@),
    {
        if str_equals(name, "read") {
            Some(BenchKind::Read)
        } else if str_equals(name, "write") {
            Some(BenchKind::Write)
        } else if str_equals(name, "streamed-read") {
            Some(BenchKind::StreamedRead)
        } else if str_equals(name, "streamed-write") {
            Some(BenchKind::StreamedWrite)
        } else {
            None
        }
    }
}

/// The command-line name of each kind is its slug: naming a kind by its slug
/// gives that kind back.
pub proof fn lemma_slug_names_kind(kind: BenchKind)
    ensures
        kind_named(slug_of(kind)) == Some(kind),
{
    reveal_strlit("read");
    reveal_strlit("write");
    reveal_strlit("streamed-read");
    reveal_strlit("streamed-write");
    assert("read"@.len() == 4);
    assert("write"@.len() == 5);
    assert("streamed-read"@.len() == 13);
    assert("streamed-write"@.len() == 14);
}

/// Every short name is seven characters long, so progress lines stay aligned.
pub proof fn lemma_short_width(kind: BenchKind)
    ensures
        short_of(kind).len() == 7,
{
    reveal_strlit("read   ");
    reveal_strlit("write  ");
    reveal_strlit("s-read ");
    reveal_strlit("s-write");
}

pub(crate) proof fn lemma_slug_has_no_comma(kind: BenchKind)
    ensures
        !slug_of(kind).contains(','),
{
    reveal_strlit("read");
    reveal_strlit("write");
    reveal_strlit("streamed-read");
    reveal_strlit("streamed-write");
    let s = slug_of(kind);
    if s.contains(',') {
        let i = choose|i: int| 0 <= i < s.len() && s[i] == ',';
        assert(s[i] != ',');
    }
}

} // verus!
