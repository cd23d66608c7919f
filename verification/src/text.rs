//! Character-level helpers shared by the configuration, routing and DNS code:
//! UTF-8 decoding, ASCII case mapping, and comparisons over `char` sequences.
use vstd::prelude::*;
use vstd::string::*;
use vstd::utf8::*;

verus! {

broadcast use vstd::utf8::encode_utf8_valid_utf8, vstd::utf8::encode_utf8_decode_utf8;

/// ASCII lower-casing of one character: `A`..=`Z` become `a`..=`z`, all else is kept.
pub open spec fn lower_char(c: char) -> char {
    if 'A' <= c && c <= 'Z' {
        ((c as u32) + 32) as char
    } else {
        c
    }
}

/// ASCII upper-casing of one character: `a`..=`z` become `A`..=`Z`, all else is kept.
pub open spec fn upper_char(c: char) -> char {
    if 'a' <= c && c <= 'z' {
        ((c as u32) - 32) as char
    } else {
        c
    }
}

/// ASCII lower-casing of a whole character sequence.
pub open spec fn lower_seq(s: Seq<char>) -> Seq<char> {
    s.map_values(|c: char| lower_char(c))
}

/// ASCII upper-casing of a whole character sequence.
pub open spec fn upper_seq(s: Seq<char>) -> Seq<char> {
    s.map_values(|c: char| upper_char(c))
}

/// Case mapping of one byte (lower-casing when `upper` is false).
pub open spec fn case_byte(b: u8, upper: bool) -> u8 {
    if upper {
        if 97 <= b && b <= 122 { (b - 32) as u8 } else { b }
    } else {
        if 65 <= b && b <= 90 { (b + 32) as u8 } else { b }
    }
}

pub open spec fn case_char(c: char, upper: bool) -> char {
    if upper { upper_char(c) } else { lower_char(c) }
}

pub open spec fn case_seq(s: Seq<char>, upper: bool) -> Seq<char> {
    s.map_values(|c: char| case_char(c, upper))
}

pub open spec fn case_bytes(s: Seq<u8>, upper: bool) -> Seq<u8> {
    s.map_values(|b: u8| case_byte(b, upper))
}

proof fn lemma_case_scalar(c: char, upper: bool)
    ensures
        encode_scalar(case_char(c, upper) as u32) == case_bytes(encode_scalar(c as u32), upper),
{
    char_is_scalar(c);
    let v = c as u32;
    let enc = encode_scalar(v);
    if has_width_1_encoding(v) {
        assert(v <= 0x7f ==> v & 0x7f == v) by (bit_vector);
        let w = case_char(c, upper) as u32;
        if upper && 'a' <= c && c <= 'z' {
            assert(w == v - 32);
        } else if !upper && 'A' <= c && c <= 'Z' {
            assert(w == v + 32);
        } else {
            assert(w == v);
        }
        assert(w <= 0x7f ==> w & 0x7f == w) by (bit_vector);
        assert(encode_scalar(w) =~= case_bytes(enc, upper));
    } else {
        assert(case_char(c, upper) == c);
        assert(forall|x: u32| 0xC0u8 <= #[trigger] (0xC0u8 | (((x >> 6) & 0x1F) as u8))) by (bit_vector);
        assert(forall|x: u32| 0xC0u8 <= #[trigger] (0xE0u8 | (((x >> 12) & 0x0F) as u8))) by (bit_vector);
        assert(forall|x: u32| 0xC0u8 <= #[trigger] (0xF0u8 | (((x >> 18) & 0x7) as u8))) by (bit_vector);
        assert(forall|x: u32| 0x80u8 <= #[trigger] (0x80u8 | ((x & 0x3F) as u8))) by (bit_vector);
        assert(forall|x: u32| 0x80u8 <= #[trigger] (0x80u8 | (((x >> 6) & 0x3F) as u8))) by (bit_vector);
        assert(forall|x: u32| 0x80u8 <= #[trigger] (0x80u8 | (((x >> 12) & 0x3F) as u8))) by (bit_vector);
        assert(forall|i: int| 0 <= i < enc.len() ==> enc[i] >= 0x80);
        assert(enc =~= case_bytes(enc, upper));
    }
}

/// Case mapping commutes with UTF-8 encoding: mapping the characters and then
/// encoding gives the same bytes as encoding and then mapping the bytes.
pub proof fn lemma_case_encode(s: Seq<char>, upper: bool)
    ensures
        encode_utf8(case_seq(s, upper)) == case_bytes(encode_utf8(s), upper),
    decreases s.len(),
{
    if s.len() > 0 {
        lemma_case_encode(s.drop_first(), upper);
        lemma_case_scalar(s[0], upper);
        assert(case_seq(s, upper).drop_first() =~= case_seq(s.drop_first(), upper));
        assert(case_bytes(encode_scalar(s[0] as u32) + encode_utf8(s.drop_first()), upper)
            =~= case_bytes(encode_scalar(s[0] as u32), upper) + case_bytes(encode_utf8(s.drop_first()), upper));
    } else {
        assert(case_bytes(encode_utf8(s), upper) =~= Seq::<u8>::empty());
    }
}

/// `std::str::from_utf8`: it accepts exactly the byte sequences that are valid
/// UTF-8, and then returns the string slice whose UTF-8 bytes are the input.
#[verifier::external_body]
fn utf8_str(bytes: &[u8]) -> (r: Option<&str>)
    ensures
        r is Some <==> valid_utf8(bytes@),
        r matches Some(s) ==> s.spec_bytes() == bytes@,
{
    std::str::from_utf8(bytes).ok()
}

/// Decodes a byte slice as UTF-8; `None` exactly when it is not valid UTF-8.
pub fn decode_utf8_str(bytes: &[u8]) -> (r: Option<&str>)
    ensures
        r is Some <==> valid_utf8(bytes@),
        r matches Some(s) ==> s@ == decode_utf8(bytes@),
{
    let r = utf8_str(bytes);
    proof {
        if let Some(s) = r {
            assert(decode_utf8(encode_utf8(s@)) == s@);
        }
    }
    r
}

fn case_byte_exec(b: u8, upper: bool) -> (r: u8)
    ensures
        r == case_byte(b, upper),
{
    if upper {
        if 97 <= b && b <= 122 { b - 32 } else { b }
    } else {
        if 65 <= b && b <= 90 { b + 32 } else { b }
    }
}

fn map_ascii_case(s: &str, upper: bool) -> (r: String)
    ensures
        r@ == case_seq(s@, upper),
{
    let bytes = s.as_bytes();
    let mut out: Vec<u8> = Vec::with_capacity(bytes.len());
    let mut i: usize = 0;
    while i < bytes.len()
        invariant
            i <= bytes@.len(),
            out@ == case_bytes(bytes@.subrange(0, i as int), upper),
        decreases bytes@.len() - i,
    {
        let b = case_byte_exec(bytes[i], upper);
        out.push(b);
        proof {
            assert(bytes@.subrange(0, i + 1) =~= bytes@.subrange(0, i as int).push(bytes@[i as int]));
            assert(case_bytes(bytes@.subrange(0, i + 1), upper) =~= case_bytes(bytes@.subrange(0, i as int), upper).push(b));
        }
        i = i + 1;
    }
    proof {
        assert(bytes@.subrange(0, bytes@.len() as int) =~= bytes@);
        lemma_case_encode(s@, upper);
        assert(out@ == encode_utf8(case_seq(s@, upper)));
    }
    match decode_utf8_str(out.as_slice()) {
        Some(t) => t.to_owned(),
        None => {
            proof {
                assert(valid_utf8(encode_utf8(case_seq(s@, upper))));
            }
            String::new()
        },
    }
}

/// `str::to_ascii_lowercase`: ASCII letters lower-cased, every other character kept.
pub fn ascii_lowercase(s: &str) -> (r: String)
    ensures
        r@ == lower_seq(s@),
{
    let r = map_ascii_case(s, false);
    assert(r@ =~= lower_seq(s@));
    r
}

/// `str::to_ascii_uppercase`: ASCII letters upper-cased, every other character kept.
pub fn ascii_uppercase(s: &str) -> (r: String)
    ensures
        r@ == upper_seq(s@),
{
    let r = map_ascii_case(s, true);
    assert(r@ =~= upper_seq(s@));
    r
}

/// The characters of a string slice, in order.
pub fn chars_of(s: &str) -> (r: Vec<char>)
    ensures
        r@ == s@,
{
    let n = s.unicode_len();
    let mut out: Vec<char> = Vec::with_capacity(n);
    let mut i: usize = 0;
    while i < n
        invariant
            n == s@.len(),
            i <= n,
            out@ == s@.subrange(0, i as int),
        decreases n - i,
    {
        out.push(s.get_char(i));
        i = i + 1;
    }
    out
}

/// Whether two character sequences are equal.
pub fn chars_eq(a: &[char], b: &[char]) -> (r: bool)
    ensures
        r == (a@ == b@),
{
    if a.len() != b.len() {
        return false;
    }
    let mut i: usize = 0;
    while i < a.len()
        invariant
            a@.len() == b@.len(),
            i <= a@.len(),
            forall|j: int| 0 <= j < i ==> a@[j] == b@[j],
        decreases a@.len() - i,
    {
        if a[i] != b[i] {
            return false;
        }
        i = i + 1;
    }
    assert(a@ =~= b@);
    true
}

/// Whether two string slices hold the same characters.
pub fn str_eq(a: &str, b: &str) -> (r: bool)
    ensures
        r == (a@ == b@),
{
    let ca = chars_of(a);
    let cb = chars_of(b);
    chars_eq(ca.as_slice(), cb.as_slice())
}


/// Unicode `White_Space`, the set that `char::is_whitespace` tests.
pub open spec fn is_ws(c: char) -> bool {
    ||| ('\u{9}' <= c && c <= '\u{D}')
    ||| c == ' '
    ||| c == '\u{85}'
    ||| c == '\u{A0}'
    ||| c == '\u{1680}'
    ||| ('\u{2000}' <= c && c <= '\u{200A}')
    ||| c == '\u{2028}'
    ||| c == '\u{2029}'
    ||| c == '\u{202F}'
    ||| c == '\u{205F}'
    ||| c == '\u{3000}'
}

/// `char::is_whitespace`.
pub fn is_ws_exec(c: char) -> (r: bool)
    ensures
        r == is_ws(c),
{
    ('\u{9}' <= c && c <= '\u{D}') || c == ' ' || c == '\u{85}' || c == '\u{A0}' || c == '\u{1680}'
        || ('\u{2000}' <= c && c <= '\u{200A}') || c == '\u{2028}' || c == '\u{2029}'
        || c == '\u{202F}' || c == '\u{205F}' || c == '\u{3000}'
}

pub open spec fn trim_start_ws(s: Seq<char>) -> Seq<char>
    decreases s.len(),
{
    if s.len() > 0 && is_ws(s[0]) {
        trim_start_ws(s.drop_first())
    } else {
        s
    }
}

pub open spec fn trim_end_ws(s: Seq<char>) -> Seq<char>
    decreases s.len(),
{
    if s.len() > 0 && is_ws(s.last()) {
        trim_end_ws(s.drop_last())
    } else {
        s
    }
}

/// `str::trim`: leading and trailing whitespace removed.
pub open spec fn trim_ws(s: Seq<char>) -> Seq<char> {
    trim_end_ws(trim_start_ws(s))
}

/// The bounds of `cs[start..end]` with surrounding whitespace removed.
pub fn trim_bounds(cs: &[char], start: usize, end: usize) -> (r: (usize, usize))
    requires
        start <= end <= cs@.len(),
    ensures
        start <= r.0 <= r.1 <= end,
        cs@.subrange(r.0 as int, r.1 as int) == trim_ws(cs@.subrange(start as int, end as int)),
{
    let mut lo = start;
    while lo < end && is_ws_exec(cs[lo])
        invariant
            start <= lo <= end <= cs@.len(),
            trim_start_ws(cs@.subrange(start as int, end as int)) == trim_start_ws(cs@.subrange(lo as int, end as int)),
        decreases end - lo,
    {
        assert(cs@.subrange(lo as int, end as int).drop_first() =~= cs@.subrange(lo + 1, end as int));
        lo = lo + 1;
    }
    assert(trim_start_ws(cs@.subrange(lo as int, end as int)) == cs@.subrange(lo as int, end as int));
    let mut hi = end;
    while hi > lo && is_ws_exec(cs[hi - 1])
        invariant
            start <= lo <= hi <= end <= cs@.len(),
            trim_end_ws(cs@.subrange(lo as int, end as int)) == trim_end_ws(cs@.subrange(lo as int, hi as int)),
        decreases hi - lo,
    {
        assert(cs@.subrange(lo as int, hi as int).drop_last() =~= cs@.subrange(lo as int, hi - 1));
        hi = hi - 1;
    }
    assert(trim_end_ws(cs@.subrange(lo as int, hi as int)) == cs@.subrange(lo as int, hi as int));
    (lo, hi)
}

/// The pieces of `s` between occurrences of `sep` (as `str::split` with a
/// `char` pattern yields them); there is always at least one piece.
pub open spec fn split_char(s: Seq<char>, sep: char) -> Seq<Seq<char>>
    decreases s.len(),
{
    if s.len() == 0 {
        seq![Seq::<char>::empty()]
    } else {
        let rest = split_char(s.drop_first(), sep);
        if s[0] == sep {
            seq![Seq::<char>::empty()] + rest
        } else {
            rest.update(0, seq![s[0]] + rest[0])
        }
    }
}

pub proof fn lemma_split_nonempty(s: Seq<char>, sep: char)
    ensures
        split_char(s, sep).len() >= 1,
    decreases s.len(),
{
    if s.len() > 0 {
        lemma_split_nonempty(s.drop_first(), sep);
    }
}

/// Prefixing characters that are not separators extends the first piece.
pub proof fn lemma_split_prefix(cur: Seq<char>, t: Seq<char>, sep: char)
    requires
        forall|j: int| 0 <= j < cur.len() ==> cur[j] != sep,
    ensures
        split_char(cur + t, sep) == split_char(t, sep).update(0, cur + split_char(t, sep)[0]),
    decreases cur.len(),
{
    lemma_split_nonempty(t, sep);
    if cur.len() == 0 {
        assert(cur + t =~= t);
        assert(cur + split_char(t, sep)[0] =~= split_char(t, sep)[0]);
        assert(split_char(t, sep).update(0, split_char(t, sep)[0]) =~= split_char(t, sep));
    } else {
        let rest = cur.drop_first();
        lemma_split_prefix(rest, t, sep);
        assert((cur + t).drop_first() =~= rest + t);
        lemma_split_nonempty(rest + t, sep);
        assert(seq![cur[0]] + (rest + split_char(t, sep)[0]) =~= cur + split_char(t, sep)[0]);
        assert(split_char(cur + t, sep) =~= split_char(t, sep).update(0, cur + split_char(t, sep)[0]));
    }
}

/// The bounds of the pieces of `cs` between occurrences of `sep`, in order.
pub fn split_ranges(cs: &[char], sep: char) -> (r: Vec<(usize, usize)>)
    ensures
        r@.len() == split_char(cs@, sep).len(),
        forall|i: int|
            0 <= i < r@.len() ==> #[trigger] r@[i].0 <= r@[i].1 <= cs@.len()
                && cs@.subrange(r@[i].0 as int, r@[i].1 as int) == split_char(cs@, sep)[i],
{
    let n = cs.len();
    let mut out: Vec<(usize, usize)> = Vec::new();
    let mut start: usize = 0;
    let mut i: usize = 0;
    let ghost mut done: Seq<Seq<char>> = seq![];
    proof {
        assert(cs@.subrange(0, 0) + cs@.skip(0) =~= cs@);
    }
    while i <= n
        invariant
            n == cs@.len(),
            start <= i <= n,
            split_char(cs@, sep) == done + split_char(cs@.subrange(start as int, i as int) + cs@.skip(i as int), sep),
            forall|j: int| start <= j < i ==> cs@[j] != sep,
            out@.len() == done.len(),
            forall|j: int|
                0 <= j < out@.len() ==> #[trigger] out@[j].0 <= out@[j].1 <= cs@.len()
                    && cs@.subrange(out@[j].0 as int, out@[j].1 as int) == done[j],
        decreases n + 1 - i,
    {
        if i == n || cs[i] == sep {
            let ghost piece = cs@.subrange(start as int, i as int);
            let ghost t = cs@.skip(i as int);
            proof {
                lemma_split_prefix(piece, t, sep);
                lemma_split_nonempty(t, sep);
            }
            out.push((start, i));
            proof {
                done = done.push(piece);
            }
            if i == n {
                proof {
                    assert(t =~= Seq::<char>::empty());
                    assert(split_char(cs@, sep) =~= done);
                }
                return out;
            }
            proof {
                assert(t.drop_first() =~= cs@.skip(i + 1));
                assert(t[0] == sep);
                assert(split_char(t, sep) =~= seq![Seq::<char>::empty()] + split_char(cs@.skip(i + 1), sep));
                assert(cs@.subrange(i + 1, i + 1) + cs@.skip(i + 1) =~= cs@.skip(i + 1));
                assert(split_char(cs@, sep) =~= done + split_char(cs@.subrange(i + 1, i + 1) + cs@.skip(i + 1), sep));
            }
            start = i + 1;
        } else {
            proof {
                assert(cs@.subrange(start as int, i as int) + cs@.skip(i as int) =~= cs@.subrange(start as int, i + 1) + cs@.skip(i + 1));
            }
        }
        i = i + 1;
    }
    out
}

} // verus!
