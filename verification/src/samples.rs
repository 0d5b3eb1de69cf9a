use vstd::prelude::*;

use crate::text::append_str;

verus! {

/// Number of pieces of at most `chunk` items that `n` items take.
pub open spec fn chunk_count(n: int, chunk: int) -> int {
    if n <= 0 {
        0
    } else {
        (n + chunk - 1) / chunk
    }
}

/// Interleaves a signal for `channels` channels: every frame value is repeated
/// once per channel, frame after frame.
pub fn interleave<T: Copy>(frames: &Vec<T>, channels: usize) -> (r: Vec<T>)
    requires
        frames@.len() * channels <= usize::MAX,
    ensures
        r@.len() == frames@.len() * channels,
        forall|i: int| 0 <= i < r@.len() ==> #[trigger] r@[i] == frames@[i / channels as int],
{
    let mut r: Vec<T> = Vec::new();
    let mut f: usize = 0;
    while f < frames.len()
        invariant
            f <= frames@.len(),
            frames@.len() * channels <= usize::MAX,
            r@.len() == f * channels,
            forall|i: int| 0 <= i < r@.len() ==> #[trigger] r@[i] == frames@[i / channels as int],
        decreases frames@.len() - f,
    {
        let v = frames[f];
        let mut c: usize = 0;
        proof {
            assert((f + 1) * channels <= frames@.len() * channels) by (nonlinear_arith)
                requires
                    f < frames@.len(),
            ;
            assert((f + 1) * channels == f * channels + channels) by (nonlinear_arith);
        }
        while c < channels
            invariant
                f < frames@.len(),
                c <= channels,
                v == frames@[f as int],
                f * channels + channels <= usize::MAX,
                r@.len() == f * channels + c,
                forall|i: int|
                    0 <= i < r@.len() ==> #[trigger] r@[i] == frames@[i / channels as int],
            decreases channels - c,
        {
            proof {
                vstd::arithmetic::div_mod::lemma_fundamental_div_mod_converse(
                    (f * channels + c) as int,
                    channels as int,
                    f as int,
                    c as int,
                );
            }
            r.push(v);
            c = c + 1;
        }
        f = f + 1;
    }
    r
}

/// The little-endian 32-bit number held by the four bytes at `pos`.
pub open spec fn le_u32(b: Seq<u8>, pos: int) -> int {
    (b[pos] as int) + 256 * (b[pos + 1] as int) + 65536 * (b[pos + 2] as int) + 16777216 * (b[pos
        + 3] as int)
}

/// Whether the four bytes at `pos` are `tag`.
pub open spec fn tag_at(b: Seq<u8>, pos: int, tag: Seq<u8>) -> bool {
    b.subrange(pos, pos + 4) == tag
}

/// The ASCII bytes `RIFF`.
pub open spec fn riff_tag() -> Seq<u8> {
    seq![0x52u8, 0x49u8, 0x46u8, 0x46u8]
}

/// The ASCII bytes `WAVE`.
pub open spec fn wave_tag() -> Seq<u8> {
    seq![0x57u8, 0x41u8, 0x56u8, 0x45u8]
}

/// The ASCII bytes `data`.
pub open spec fn data_tag() -> Seq<u8> {
    seq![0x64u8, 0x61u8, 0x74u8, 0x61u8]
}

/// Walks the RIFF chunks that start at `pos`. Each chunk is a four-byte tag, a
/// four-byte little-endian body length and the body, followed by a pad byte
/// when the length is odd. Gives the span from the start to the end of the
/// body of the first `data` chunk, the end cut at the end of `b`, or `None`
/// when the chunks run out before a `data` chunk.
pub open spec fn data_chunk_from(b: Seq<u8>, pos: int) -> Option<(int, int)>
    decreases b.len() - pos,
{
    if pos < 0 || pos + 8 > b.len() {
        None
    } else {
        let size = le_u32(b, pos + 4);
        let body = pos + 8;
        if tag_at(b, pos, data_tag()) {
            Some(
                (
                    body,
                    if body + size <= b.len() {
                        body + size
                    } else {
                        b.len() as int
                    },
                ),
            )
        } else {
            let next = body + size + size % 2;
            if next > b.len() {
                None
            } else {
                data_chunk_from(b, next)
            }
        }
    }
}

/// Where the samples of a WAV file lie: for bytes that begin with `RIFF`, a
/// four-byte length and `WAVE`, the body of the first `data` chunk among the
/// chunks that follow.
pub open spec fn wav_samples_span(b: Seq<u8>) -> Option<(int, int)> {
    if b.len() >= 12 && tag_at(b, 0, riff_tag()) && tag_at(b, 8, wave_tag()) {
        data_chunk_from(b, 12)
    } else {
        None
    }
}

/// The four bytes of `n` in little-endian order, least significant first.
pub open spec fn le_bytes(n: u32) -> Seq<u8> {
    seq![
        (n % 256) as u8,
        ((n / 256) % 256) as u8,
        ((n / 65536) % 256) as u8,
        (n / 16777216) as u8,
    ]
}

/// Chunk lengths are read in full: four bytes that hold any 32-bit number `n`
/// in little-endian order are read back as `n`.
pub proof fn lemma_le_u32_reads_back(b: Seq<u8>, pos: int, n: u32)
    requires
        0 <= pos,
        pos + 4 <= b.len(),
        b.subrange(pos, pos + 4) == le_bytes(n),
    ensures
        le_u32(b, pos) == n,
{
    let sub = b.subrange(pos, pos + 4);
    assert(b[pos] == sub[0] && b[pos + 1] == sub[1] && b[pos + 2] == sub[2] && b[pos + 3] == sub[3]);
    assert(((n % 256) as u8) as u32 == n % 256) by (bit_vector);
    assert((((n / 256) % 256) as u8) as u32 == (n / 256) % 256) by (bit_vector);
    assert((((n / 65536) % 256) as u8) as u32 == (n / 65536) % 256) by (bit_vector);
    assert(((n / 16777216) as u8) as u32 == n / 16777216) by (bit_vector);
    assert(n == n % 256 + 256 * ((n / 256) % 256) + 65536 * ((n / 65536) % 256) + 16777216 * (n
        / 16777216)) by (bit_vector);
}

/// The samples of a canonical WAV file: `RIFF`, its length, `WAVE`, a 16-byte
/// `fmt ` chunk and then a `data` chunk whose length field holds `n`, with the
/// `n` bytes present, lie in bytes 44 up to `44 + n`, whatever `n` is and
/// whatever follows them.
pub proof fn lemma_canonical_wav_span(b: Seq<u8>, n: u32)
    requires
        b.len() >= 44 + n,
        b.subrange(0, 4) == seq![0x52u8, 0x49u8, 0x46u8, 0x46u8],
        b.subrange(8, 12) == seq![0x57u8, 0x41u8, 0x56u8, 0x45u8],
        b.subrange(12, 16) == seq![0x66u8, 0x6Du8, 0x74u8, 0x20u8],
        b.subrange(16, 20) == le_bytes(16),
        b.subrange(36, 40) == seq![0x64u8, 0x61u8, 0x74u8, 0x61u8],
        b.subrange(40, 44) == le_bytes(n),
    ensures
        wav_samples_span(b) == Some((44int, 44 + n)),
{
    lemma_le_u32_reads_back(b, 16, 16);
    lemma_le_u32_reads_back(b, 40, n);
    assert(b.subrange(0, 4) == riff_tag());
    assert(b.subrange(8, 12) == wave_tag());
    assert(b.subrange(36, 40) =~= data_tag());
    assert(!tag_at(b, 12, data_tag())) by {
        assert(b.subrange(12, 16)[0] == 0x66u8);
    }
    assert(data_chunk_from(b, 36) == Some((44int, 44 + n)));
    assert(data_chunk_from(b, 12) == data_chunk_from(b, 36));
}

/// A chunk before the samples is skipped with its pad byte: in a canonical
/// file with one more chunk of any length `m` between `fmt ` and `data`, the
/// samples start after that chunk's body, one byte further when `m` is odd.
pub proof fn lemma_wav_span_skips_chunk(b: Seq<u8>, m: u32, n: u32)
    requires
        ({
            let d = 44 + if m % 2 == 0 {
                m as int
            } else {
                m + 1
            };
            &&& b.len() >= d + 8 + n
            &&& b.subrange(0, 4) == seq![0x52u8, 0x49u8, 0x46u8, 0x46u8]
            &&& b.subrange(8, 12) == seq![0x57u8, 0x41u8, 0x56u8, 0x45u8]
            &&& b.subrange(12, 16) == seq![0x66u8, 0x6Du8, 0x74u8, 0x20u8]
            &&& b.subrange(16, 20) == le_bytes(16)
            &&& b[36] != 0x64u8
            &&& b.subrange(40, 44) == le_bytes(m)
            &&& b.subrange(d, d + 4) == seq![0x64u8, 0x61u8, 0x74u8, 0x61u8]
            &&& b.subrange(d + 4, d + 8) == le_bytes(n)
        }),
    ensures
        ({
            let d = 44 + if m % 2 == 0 {
                m as int
            } else {
                m + 1
            };
            wav_samples_span(b) == Some((d + 8, d + 8 + n))
        }),
{
    let d = 44 + if m % 2 == 0 {
        m as int
    } else {
        m + 1
    };
    lemma_le_u32_reads_back(b, 16, 16);
    lemma_le_u32_reads_back(b, 40, m);
    lemma_le_u32_reads_back(b, d + 4, n);
    assert(b.subrange(0, 4) == riff_tag());
    assert(b.subrange(8, 12) == wave_tag());
    assert(b.subrange(d, d + 4) =~= data_tag());
    assert(!tag_at(b, 12, data_tag())) by {
        assert(b.subrange(12, 16)[0] == 0x66u8);
    }
    assert(!tag_at(b, 36, data_tag())) by {
        assert(b.subrange(36, 40)[0] == b[36]);
    }
    assert(data_chunk_from(b, d) == Some((d + 8, d + 8 + n)));
    assert(data_chunk_from(b, 36) == data_chunk_from(b, d));
    assert(data_chunk_from(b, 12) == data_chunk_from(b, 36));
}

/// Whatever the bytes, a span that is found is the body of a chunk tagged
/// `data` that starts after the file header: its tag lies eight bytes before
/// it, and it runs for the length field's number of bytes, cut at the end of
/// the file.
pub proof fn lemma_wav_span_is_data_body(b: Seq<u8>)
    ensures
        wav_samples_span(b) matches Some((s, e)) ==> {
            &&& 20 <= s <= e <= b.len()
            &&& b.subrange(s - 8, s - 4) == seq![0x64u8, 0x61u8, 0x74u8, 0x61u8]
            &&& e == if s + le_u32(b, s - 4) <= b.len() {
                s + le_u32(b, s - 4)
            } else {
                b.len() as int
            }
        },
{
    if b.len() >= 12 && tag_at(b, 0, riff_tag()) && tag_at(b, 8, wave_tag()) {
        lemma_data_chunk_body(b, 12);
    }
}

proof fn lemma_data_chunk_body(b: Seq<u8>, pos: int)
    requires
        pos >= 12,
    ensures
        data_chunk_from(b, pos) matches Some((s, e)) ==> {
            &&& pos + 8 <= s <= e <= b.len()
            &&& b.subrange(s - 8, s - 4) == data_tag()
            &&& e == if s + le_u32(b, s - 4) <= b.len() {
                s + le_u32(b, s - 4)
            } else {
                b.len() as int
            }
        },
    decreases b.len() - pos,
{
    if pos + 8 <= b.len() && !tag_at(b, pos, data_tag()) {
        let size = le_u32(b, pos + 4);
        assert(size >= 0);
        let next = pos + 8 + size + size % 2;
        if next <= b.len() {
            lemma_data_chunk_body(b, next);
        }
    }
}

/// Whether the four bytes of `b` at `pos` are `t0 t1 t2 t3`.
fn has_tag(b: &[u8], pos: usize, t0: u8, t1: u8, t2: u8, t3: u8) -> (r: bool)
    requires
        pos + 4 <= b@.len(),
    ensures
        r == tag_at(b@, pos as int, seq![t0, t1, t2, t3]),
{
    let r = b[pos] == t0 && b[pos + 1] == t1 && b[pos + 2] == t2 && b[pos + 3] == t3;
    proof {
        let sub = b@.subrange(pos as int, pos + 4);
        if r {
            assert(sub =~= seq![t0, t1, t2, t3]);
        } else {
            if sub == seq![t0, t1, t2, t3] {
                assert(sub[0] == t0 && sub[1] == t1 && sub[2] == t2 && sub[3] == t3);
            }
        }
    }
    r
}

/// The span of the samples of the WAV file whose bytes are `bytes`, found by
/// walking its chunk list to the first `data` chunk.
pub fn wav_data_span(bytes: &[u8]) -> (r: Option<(usize, usize)>)
    ensures
        match r {
            Some((start, end)) => wav_samples_span(bytes@) == Some((start as int, end as int)),
            None => wav_samples_span(bytes@) is None,
        },
{
    let len = bytes.len();
    if len < 12 || !has_tag(bytes, 0, 0x52, 0x49, 0x46, 0x46) || !has_tag(
        bytes,
        8,
        0x57,
        0x41,
        0x56,
        0x45,
    ) {
        return None;
    }
    let mut pos: usize = 12;
    loop
        invariant
            12 <= pos <= len,
            len == bytes@.len(),
            wav_samples_span(bytes@) == data_chunk_from(bytes@, pos as int),
        decreases len - pos,
    {
        if len - pos < 8 {
            return None;
        }
        let size: u64 = bytes[pos + 4] as u64 + (bytes[pos + 5] as u64) * 256 + (bytes[pos
            + 6] as u64) * 65536 + (bytes[pos + 7] as u64) * 16777216;
        assert(size == le_u32(bytes@, pos + 4));
        let body = pos + 8;
        let remaining = len - body;
        if has_tag(bytes, pos, 0x64, 0x61, 0x74, 0x61) {
            let end = if size <= remaining as u64 {
                body + size as usize
            } else {
                len
            };
            return Some((body, end));
        }
        if size > remaining as u64 {
            return None;
        }
        let after = body + size as usize;
        let next = if size % 2 == 1 {
            if after == len {
                return None;
            }
            after + 1
        } else {
            after
        };
        pos = next;
    }
}

/// The sum of the bytes of `s`.
pub open spec fn byte_total(s: Seq<u8>) -> int
    decreases s.len(),
{
    if s.len() == 0 {
        0
    } else {
        byte_total(s.drop_last()) + s.last()
    }
}

proof fn lemma_byte_total_bound(s: Seq<u8>)
    ensures
        0 <= byte_total(s) <= 255 * s.len(),
    decreases s.len(),
{
    if s.len() > 0 {
        lemma_byte_total_bound(s.drop_last());
    }
}

/// Byte sums add up: the sum of two stretches of bytes one after the other is
/// the sum of each, and a single byte sums to its value.
pub proof fn lemma_byte_total_adds(a: Seq<u8>, b: Seq<u8>)
    ensures
        byte_total(a + b) == byte_total(a) + byte_total(b),
        a.len() == 1 ==> byte_total(a) == a[0] as int,
        a.len() == 0 ==> byte_total(a) == 0,
    decreases b.len(),
{
    if a.len() == 1 {
        assert(a.drop_last() =~= Seq::<u8>::empty());
        assert(byte_total(a.drop_last()) == 0);
        assert(a.last() == a[0]);
    }
    if b.len() == 0 {
        assert(a + b =~= a);
    } else {
        lemma_byte_total_adds(a, b.drop_last());
        assert((a + b).drop_last() =~= a + b.drop_last());
    }
}

/// The sum of the bytes of `bytes` from position `from` up to `to`.
pub fn byte_sum(bytes: &[u8], from: usize, to: usize) -> (r: u64)
    requires
        from <= to <= bytes@.len(),
        255 * (to - from) <= u64::MAX,
    ensures
        r == byte_total(bytes@.subrange(from as int, to as int)),
{
    let mut sum: u64 = 0;
    let mut i: usize = from;
    while i < to
        invariant
            from <= i <= to <= bytes@.len(),
            255 * (to - from) <= u64::MAX,
            sum == byte_total(bytes@.subrange(from as int, i as int)),
        decreases to - i,
    {
        proof {
            let part = bytes@.subrange(from as int, i + 1);
            assert(part.drop_last() =~= bytes@.subrange(from as int, i as int));
            lemma_byte_total_bound(part);
        }
        sum = sum + bytes[i] as u64;
        i = i + 1;
    }
    sum
}

/// Splits `n_frames` frames into consecutive spans of `chunk_frames` frames,
/// the last one possibly shorter: span `k` runs from `k * chunk_frames` up to
/// the smaller of `(k + 1) * chunk_frames` and `n_frames`.
pub fn chunk_spans(n_frames: usize, chunk_frames: usize) -> (r: Vec<(usize, usize)>)
    requires
        chunk_frames > 0 || n_frames == 0,
    ensures
        r@.len() == chunk_count(n_frames as int, chunk_frames as int),
        forall|k: int|
            0 <= k < r@.len() ==> (#[trigger] r@[k]).0 == k * chunk_frames && r@[k].1 == if (k
                + 1) * chunk_frames <= n_frames {
                (k + 1) * chunk_frames
            } else {
                n_frames as int
            },
{
    let mut r: Vec<(usize, usize)> = Vec::new();
    let mut i: usize = 0;
    assert(0 * chunk_frames == 0);
    while i < n_frames
        invariant
            chunk_frames > 0 || n_frames == 0,
            i <= n_frames,
            i == r@.len() * chunk_frames || i == n_frames,
            i < n_frames ==> i == r@.len() * chunk_frames,
            r@.len() == chunk_count(i as int, chunk_frames as int),
            forall|k: int|
                0 <= k < r@.len() ==> (#[trigger] r@[k]).0 == k * chunk_frames && r@[k].1 == if (k
                    + 1) * chunk_frames <= n_frames {
                    (k + 1) * chunk_frames
                } else {
                    n_frames as int
                },
        decreases n_frames - i,
    {
        let end = if chunk_frames < n_frames - i {
            i + chunk_frames
        } else {
            n_frames
        };
        proof {
            let k = r@.len() as int;
            assert((k + 1) * chunk_frames == k * chunk_frames + chunk_frames) by (nonlinear_arith);
            assert(chunk_count(i as int, chunk_frames as int) == k) by {
                if i > 0 {
                    assert((i + chunk_frames - 1) / chunk_frames as int == k) by (nonlinear_arith)
                        requires
                            i == k * chunk_frames,
                            chunk_frames > 0,
                    {
                        vstd::arithmetic::div_mod::lemma_fundamental_div_mod_converse(
                            i + chunk_frames - 1,
                            chunk_frames as int,
                            k - 1 + 1,
                            chunk_frames - 1,
                        );
                    }
                }
            }
            if end < n_frames {
                vstd::arithmetic::div_mod::lemma_fundamental_div_mod_converse(
                    end + chunk_frames - 1,
                    chunk_frames as int,
                    k + 1,
                    chunk_frames - 1,
                );
            } else {
                let q = (n_frames + chunk_frames - 1) / chunk_frames as int;
                assert(q == k + 1) by (nonlinear_arith)
                    requires
                        q == (n_frames + chunk_frames - 1) / chunk_frames as int,
                        i == k * chunk_frames,
                        i < n_frames <= i + chunk_frames,
                        chunk_frames > 0,
                {
                    vstd::arithmetic::div_mod::lemma_fundamental_div_mod_converse(
                        n_frames + chunk_frames - 1,
                        chunk_frames as int,
                        k + 1,
                        n_frames - 1 - i,
                    );
                }
            }
        }
        r.push((i, end));
        i = end;
    }
    r
}

/// One more chunk after fewer than `total` frames stays within the frames of
/// all the chunks that reach `total`.
proof fn lemma_next_chunk_fits(count: int, chunk: int, total: int)
    requires
        chunk > 0,
        count >= 0,
        count * chunk < total,
    ensures
        (count + 1) * chunk <= chunk_count(total, chunk) * chunk,
{
    let q = (total + chunk - 1) / chunk;
    vstd::arithmetic::div_mod::lemma_fundamental_div_mod(total + chunk - 1, chunk);
    vstd::arithmetic::div_mod::lemma_mod_pos_bound(total + chunk - 1, chunk);
    assert(q * chunk >= total) by (nonlinear_arith)
        requires
            total + chunk - 1 == chunk * q + (total + chunk - 1) % chunk,
            (total + chunk - 1) % chunk < chunk,
    ;
    if count + 1 > q {
        vstd::arithmetic::mul::lemma_mul_inequality(q, count, chunk);
    }
    vstd::arithmetic::mul::lemma_mul_inequality(count + 1, q, chunk);
}

/// Number of whole chunks of `chunk_frames` frames written until at least
/// `total_frames` frames are out: writing stops at the first count that reaches it.
pub fn chunk_writes(total_frames: usize, chunk_frames: usize) -> (r: usize)
    requires
        chunk_frames > 0,
        chunk_count(total_frames as int, chunk_frames as int) * chunk_frames <= usize::MAX,
    ensures
        r == chunk_count(total_frames as int, chunk_frames as int),
        r * chunk_frames >= total_frames,
        r == 0 || (r - 1) * chunk_frames < total_frames,
{
    let mut written: usize = 0;
    let mut count: usize = 0;
    assert(0 * chunk_frames == 0);
    while written < total_frames
        invariant
            chunk_frames > 0,
            chunk_count(total_frames as int, chunk_frames as int) * chunk_frames <= usize::MAX,
            written == count * chunk_frames,
            count == 0 || (count - 1) * chunk_frames < total_frames,
            written < total_frames + chunk_frames,
            count <= written,
        decreases total_frames + chunk_frames - written,
    {
        proof {
            assert((count + 1) * chunk_frames == count * chunk_frames + chunk_frames)
                by (nonlinear_arith);
            assert(count * chunk_frames >= count) by (nonlinear_arith)
                requires
                    chunk_frames > 0,
            ;
            lemma_next_chunk_fits(count as int, chunk_frames as int, total_frames as int);
        }
        written = written + chunk_frames;
        count = count + 1;
    }
    proof {
        if total_frames > 0 {
            let q = (total_frames + chunk_frames - 1) / chunk_frames as int;
            assert(q == count) by (nonlinear_arith)
                requires
                    q == (total_frames + chunk_frames - 1) / chunk_frames as int,
                    count * chunk_frames >= total_frames,
                    (count - 1) * chunk_frames < total_frames,
                    count >= 1,
                    chunk_frames > 0,
            {
                vstd::arithmetic::div_mod::lemma_fundamental_div_mod_converse(
                    total_frames + chunk_frames - 1,
                    chunk_frames as int,
                    count as int,
                    total_frames + chunk_frames - 1 - count * chunk_frames,
                );
            }
        } else {
            assert(count == 0);
        }
    }
    count
}

/// The refusal of a streamed read in chunks of zero frames.
pub open spec fn zero_chunk_error() -> Seq<char> {
    "chunk_size must be > 0"@
}

/// The chunk length of a streamed read: `chunk_size` itself, which must not be
/// zero.
pub fn read_chunk_frames(chunk_size: usize) -> (r: Result<usize, String>)
    ensures
        match r {
            Ok(c) => chunk_size > 0 && c == chunk_size,
            Err(e) => chunk_size == 0 && e@ == zero_chunk_error(),
        },
{
    if chunk_size > 0 {
        Ok(chunk_size)
    } else {
        let mut e = String::new();
        append_str(&mut e, "chunk_size must be > 0");
        assert(e@ =~= zero_chunk_error());
        Err(e)
    }
}

} // verus!
