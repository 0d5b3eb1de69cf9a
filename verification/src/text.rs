use vstd::prelude::*;
use vstd::utf8::encode_utf8;
use vstd::utf8::encode_scalar;

verus! {

/// The decimal digit character of `d` (`d < 10`).
pub open spec fn digit_char(d: nat) -> char {
    ((48 + d) as u8) as char
}

/// Decimal rendering of a natural number, without sign or leading zeros.
pub open spec fn decimal(n: nat) -> Seq<char>
    decreases n,
{
    if n < 10 {
        seq![digit_char(n)]
    } else {
        decimal(n / 10).push(digit_char(n % 10))
    }
}

/// `n` copies of `c`.
pub open spec fn repeat_char(c: char, n: nat) -> Seq<char> {
    Seq::new(n, |_i: int| c)
}

/// `n` spaces, none when `n` is not positive.
pub open spec fn spaces(n: int) -> Seq<char> {
    if n > 0 {
        repeat_char(' ', n as nat)
    } else {
        Seq::empty()
    }
}

/// `s` padded with spaces on the right to at least `width` characters (`{:<width$}`).
pub open spec fn pad_end(s: Seq<char>, width: int) -> Seq<char> {
    s + spaces(width - s.len())
}

/// `s` padded with spaces on the left to at least `width` characters (`{:>width$}`).
pub open spec fn pad_start(s: Seq<char>, width: int) -> Seq<char> {
    spaces(width - s.len()) + s
}

/// `s` centred in at least `width` characters, the odd space on the right (`{:^width$}`).
pub open spec fn center(s: Seq<char>, width: int) -> Seq<char> {
    let pad = width - s.len();
    spaces(pad / 2) + s + spaces(pad - pad / 2)
}

/// Number of bytes of the UTF-8 encoding of `s`.
pub open spec fn byte_len(s: Seq<char>) -> nat {
    encode_utf8(s).len()
}

/// The parts joined by `sep`.
pub open spec fn join(parts: Seq<Seq<char>>, sep: Seq<char>) -> Seq<char>
    decreases parts.len(),
{
    if parts.len() == 0 {
        Seq::empty()
    } else if parts.len() == 1 {
        parts[0]
    } else {
        join(parts.drop_last(), sep) + sep + parts.last()
    }
}

/// A character takes one to four bytes in UTF-8.
pub proof fn lemma_byte_len_bounds(s: Seq<char>)
    ensures
        s.len() <= byte_len(s) <= 4 * s.len(),
    decreases s.len(),
{
    if s.len() > 0 {
        let c = s[0] as u32;
        assert(1 <= encode_scalar(c).len() <= 4);
        lemma_byte_len_bounds(s.drop_first());
    }
}

/// The UTF-8 encoding of a concatenation is the concatenation of the encodings.
pub proof fn lemma_byte_len_concat(a: Seq<char>, b: Seq<char>)
    ensures
        byte_len(a + b) == byte_len(a) + byte_len(b),
    decreases a.len(),
{
    if a.len() > 0 {
        assert((a + b).drop_first() =~= a.drop_first() + b);
        lemma_byte_len_concat(a.drop_first(), b);
    } else {
        assert(a + b =~= b);
    }
}

/// `String::push`: appends one character.
#[verifier::external_body]
pub(crate) fn push_char(s: &mut String, c: char)
    ensures
        final(s)@ == old(s)@.push(c),
{
    s.push(c);
}

fn digit(d: u64) -> (c: char)
    requires
        d < 10,
    ensures
        c == digit_char(d as nat),
{
    ((d as u8) + 48u8) as char
}

/// Appends the decimal rendering of `n`.
pub fn append_decimal(out: &mut String, n: u64)
    ensures
        final(out)@ == old(out)@ + decimal(n as nat),
    decreases n,
{
    if n >= 10 {
        append_decimal(out, n / 10);
        proof {
            assert(old(out)@ + decimal(n as nat) =~= old(out)@ + decimal((n / 10) as nat) + seq![
                digit_char((n % 10) as nat),
            ]);
        }
    }
    push_char(out, digit(n % 10));
}

/// Appends `s`.
pub fn append_str(out: &mut String, s: &str)
    ensures
        final(out)@ == old(out)@ + s@,
{
    out.append(s);
}

/// Appends `n` copies of `c`.
pub fn append_repeat(out: &mut String, c: char, n: usize)
    ensures
        final(out)@ == old(out)@ + repeat_char(c, n as nat),
{
    let ghost start = out@;
    let mut i: usize = 0;
    while i < n
        invariant
            i <= n,
            out@ == start + repeat_char(c, i as nat),
        decreases n - i,
    {
        push_char(out, c);
        i = i + 1;
        assert(out@ =~= start + repeat_char(c, i as nat));
    }
}

/// Appends `n` spaces, none when `n` is zero.
pub fn append_spaces(out: &mut String, n: usize)
    ensures
        final(out)@ == old(out)@ + spaces(n as int),
{
    append_repeat(out, ' ', n);
    assert(repeat_char(' ', n as nat) =~= spaces(n as int));
}

/// Number of characters of `s`.
pub fn char_count(s: &str) -> (n: usize)
    ensures
        n == s@.len(),
{
    s.unicode_len()
}

/// Appends `s` padded with spaces on the right to `width` characters.
pub fn append_pad_end(out: &mut String, s: &str, width: usize)
    ensures
        final(out)@ == old(out)@ + pad_end(s@, width as int),
{
    let n = char_count(s);
    append_str(out, s);
    if n < width {
        append_spaces(out, width - n);
    } else {
        assert(spaces(width - n) =~= Seq::<char>::empty());
    }
    assert(final(out)@ =~= old(out)@ + pad_end(s@, width as int)) by {
        assert(old(out)@ + pad_end(s@, width as int) =~= old(out)@ + s@ + spaces(width - n));
    }
}

/// Appends `s` padded with spaces on the left to `width` characters.
pub fn append_pad_start(out: &mut String, s: &str, width: usize)
    ensures
        final(out)@ == old(out)@ + pad_start(s@, width as int),
{
    let n = char_count(s);
    if n < width {
        append_spaces(out, width - n);
    } else {
        assert(spaces(width - n) =~= Seq::<char>::empty());
        append_spaces(out, 0);
    }
    append_str(out, s);
    assert(final(out)@ =~= old(out)@ + pad_start(s@, width as int)) by {
        assert(old(out)@ + pad_start(s@, width as int) =~= old(out)@ + spaces(width - n) + s@);
    }
}

/// Appends `s` centred in `width` characters.
pub fn append_center(out: &mut String, s: &str, width: usize)
    ensures
        final(out)@ == old(out)@ + center(s@, width as int),
{
    let n = char_count(s);
    let pad: usize = if n < width { width - n } else { 0 };
    append_spaces(out, pad / 2);
    append_str(out, s);
    append_spaces(out, pad - pad / 2);
    proof {
        let p = width - n;
        if p <= 0 {
            assert(spaces(p / 2) =~= Seq::<char>::empty());
            assert(spaces(p - p / 2) =~= Seq::<char>::empty());
            assert(spaces(0) =~= Seq::<char>::empty());
        }
        assert(old(out)@ + center(s@, width as int) =~= old(out)@ + spaces((pad / 2) as int) + s@
            + spaces((pad - pad / 2) as int));
    }
}

/// Whether two strings hold the same characters.
pub fn str_equals(a: &str, b: &str) -> (r: bool)
    ensures
        r == (a@ == b@),
{
    let n = char_count(a);
    if n != char_count(b) {
        return false;
    }
    let mut i: usize = 0;
    while i < n
        invariant
            n == a@.len(),
            n == b@.len(),
            i <= n,
            forall|k: int| 0 <= k < i ==> a@[k] == b@[k],
        decreases n - i,
    {
        if a.get_char(i) != b.get_char(i) {
            return false;
        }
        i = i + 1;
    }
    assert(a@ =~= b@);
    true
}

pub proof fn lemma_join_step(parts: Seq<Seq<char>>, sep: Seq<char>, k: int)
    requires
        0 <= k < parts.len(),
    ensures
        join(parts.take(k + 1), sep) == if k == 0 {
            parts[0]
        } else {
            join(parts.take(k), sep) + sep + parts[k]
        },
{
    assert(parts.take(k + 1).drop_last() =~= parts.take(k));
}

/// Appends the strings joined by `sep`.
pub fn append_joined(out: &mut String, parts: &Vec<String>, sep: &str)
    ensures
        final(out)@ == old(out)@ + join(parts@.map_values(|p: String| p@), sep@),
{
    let ghost pv = parts@.map_values(|p: String| p@);
    let ghost start = out@;
    let mut i: usize = 0;
    assert(pv.take(0) =~= Seq::<Seq<char>>::empty());
    while i < parts.len()
        invariant
            i <= parts@.len(),
            pv == parts@.map_values(|p: String| p@),
            out@ == start + join(pv.take(i as int), sep@),
        decreases parts@.len() - i,
    {
        proof {
            lemma_join_step(pv, sep@, i as int);
        }
        if i > 0 {
            append_str(out, sep);
        }
        append_str(out, parts[i].as_str());
        i = i + 1;
        assert(out@ =~= start + join(pv.take(i as int), sep@));
    }
    assert(pv.take(parts@.len() as int) =~= pv);
}

} // verus!
