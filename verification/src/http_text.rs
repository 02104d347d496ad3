//! HTTP text: building request text, parsing response text, and decoding
//! chunked transfer bodies — whole, and step by step for a caller that
//! reads from a socket incrementally.

use vstd::prelude::*;
use vstd::string::StringSliceAdditionalSpecFns;
use vstd::utf8::encode_utf8;
use crate::text::{spec_dec_chars, push_dec_chars, string_from_chars};

verus! {

/// Why response text failed to parse.
#[derive(Debug, Clone, Copy, PartialEq, Eq, Structural)]
pub enum HttpError {
    /// No line at all.
    EmptyResponse,
    /// A status line with no fields.
    InvalidStatusLine,
    /// A status line whose second field is missing.
    MissingStatusCode,
    /// A status code that is not a number the field can hold.
    InvalidStatusCode,
    /// A chunk size line that is not hexadecimal.
    InvalidChunkSize,
    /// A chunk cut short.
    IncompleteChunk,
    /// A chunked body with no size line terminator.
    MalformedChunkedBody,
}

/// An ASCII whitespace character: space, tab, carriage return or newline.
pub open spec fn spec_is_ws(c: char) -> bool {
    c == ' ' || c == '\t' || c == '\r' || c == '\n'
}

/// The first position of `c` at or after `i`, or the end.
pub open spec fn spec_char_pos(s: Seq<char>, c: char, i: int) -> int
    decreases s.len() - i,
{
    if i < 0 || i >= s.len() {
        s.len() as int
    } else if s[i] == c {
        i
    } else {
        spec_char_pos(s, c, i + 1)
    }
}

/// A character position lies between its start and the end, on the
/// character unless it is the end, with no earlier occurrence.
pub proof fn lemma_char_pos_bounds(s: Seq<char>, c: char, i: int)
    requires
        0 <= i <= s.len(),
    ensures
        i <= spec_char_pos(s, c, i) <= s.len(),
        spec_char_pos(s, c, i) < s.len() ==> s[spec_char_pos(s, c, i)] == c,
        forall|k: int| i <= k < spec_char_pos(s, c, i) ==> s[k] != c,
    decreases s.len() - i,
{
    if i < s.len() && s[i] != c {
        lemma_char_pos_bounds(s, c, i + 1);
    }
}

/// A scan that saw no `c` in `[i, j)` and `c` (or the end) at `j` has
/// found the position.
pub proof fn lemma_char_pos_is(s: Seq<char>, c: char, i: int, j: int)
    requires
        0 <= i <= j <= s.len(),
        forall|k: int| i <= k < j ==> s[k] != c,
        j == s.len() || s[j] == c,
    ensures
        spec_char_pos(s, c, i) == j,
    decreases j - i,
{
    if i < j {
        lemma_char_pos_is(s, c, i + 1, j);
    }
}

/// The first position of whitespace at or after `i`, or the end.
pub open spec fn spec_ws_pos(s: Seq<char>, i: int) -> int
    decreases s.len() - i,
{
    if i < 0 || i >= s.len() {
        s.len() as int
    } else if spec_is_ws(s[i]) {
        i
    } else {
        spec_ws_pos(s, i + 1)
    }
}

/// A whitespace position lies between its start and the end, on
/// whitespace unless it is the end, with none earlier.
pub proof fn lemma_ws_pos_bounds(s: Seq<char>, i: int)
    requires
        0 <= i <= s.len(),
    ensures
        i <= spec_ws_pos(s, i) <= s.len(),
        spec_ws_pos(s, i) < s.len() ==> spec_is_ws(s[spec_ws_pos(s, i)]),
        forall|k: int| i <= k < spec_ws_pos(s, i) ==> !spec_is_ws(s[k]),
    decreases s.len() - i,
{
    if i < s.len() && !spec_is_ws(s[i]) {
        lemma_ws_pos_bounds(s, i + 1);
    }
}

/// A scan that saw no whitespace in `[i, j)` and whitespace (or the end)
/// at `j` has found the position.
pub proof fn lemma_ws_pos_is(s: Seq<char>, i: int, j: int)
    requires
        0 <= i <= j <= s.len(),
        forall|k: int| i <= k < j ==> !spec_is_ws(s[k]),
        j == s.len() || spec_is_ws(s[j]),
    ensures
        spec_ws_pos(s, i) == j,
    decreases j - i,
{
    if i < j {
        lemma_ws_pos_is(s, i + 1, j);
    }
}

/// A line with one trailing carriage return shed.
pub open spec fn spec_strip_cr(l: Seq<char>) -> Seq<char> {
    if l.len() > 0 && l.last() == '\r' {
        l.drop_last()
    } else {
        l
    }
}

/// The lines from position `i` on: split at newlines, each shedding one
/// trailing carriage return, the final line ending optional.
pub open spec fn spec_lines_from(s: Seq<char>, i: int) -> Seq<Seq<char>>
    decreases s.len() - i,
    via spec_lines_from_dec
{
    if i < 0 || i >= s.len() {
        seq![]
    } else {
        let e = spec_char_pos(s, '\n', i);
        let line = spec_strip_cr(s.subrange(i, e));
        if e >= s.len() {
            seq![line]
        } else {
            seq![line] + spec_lines_from(s, e + 1)
        }
    }
}

#[via_fn]
proof fn spec_lines_from_dec(s: Seq<char>, i: int) {
    if 0 <= i < s.len() {
        lemma_char_pos_bounds(s, '\n', i);
    }
}

/// The text's lines.
pub open spec fn spec_lines(s: Seq<char>) -> Seq<Seq<char>> {
    spec_lines_from(s, 0)
}

/// The whitespace-separated fields from position `i` on.
pub open spec fn spec_tokens_from(s: Seq<char>, i: int) -> Seq<Seq<char>>
    decreases s.len() - i,
    via spec_tokens_from_dec
{
    if i < 0 || i >= s.len() {
        seq![]
    } else if spec_is_ws(s[i]) {
        spec_tokens_from(s, i + 1)
    } else {
        let e = spec_ws_pos(s, i);
        seq![s.subrange(i, e)] + spec_tokens_from(s, e)
    }
}

#[via_fn]
proof fn spec_tokens_from_dec(s: Seq<char>, i: int) {
    if 0 <= i < s.len() && !spec_is_ws(s[i]) {
        lemma_ws_pos_bounds(s, i);
    }
}

/// The text's whitespace-separated fields.
pub open spec fn spec_tokens(s: Seq<char>) -> Seq<Seq<char>> {
    spec_tokens_from(s, 0)
}

/// The text with leading whitespace shed.
pub open spec fn spec_trim_start(s: Seq<char>) -> Seq<char>
    decreases s.len(),
{
    if s.len() > 0 && spec_is_ws(s[0]) {
        spec_trim_start(s.drop_first())
    } else {
        s
    }
}

/// The text with trailing whitespace shed.
pub open spec fn spec_trim_end(s: Seq<char>) -> Seq<char>
    decreases s.len(),
{
    if s.len() > 0 && spec_is_ws(s.last()) {
        spec_trim_end(s.drop_last())
    } else {
        s
    }
}

/// The text with whitespace shed at both ends.
pub open spec fn spec_trim(s: Seq<char>) -> Seq<char> {
    spec_trim_end(spec_trim_start(s))
}

/// A character lowered: an ASCII capital moved down, all else kept.
pub open spec fn spec_lower_char(c: char) -> char {
    if 65 <= c as u32 <= 90 {
        (((c as u32) + 32) as u8) as char
    } else {
        c
    }
}

/// The text lowered character by character.
pub open spec fn spec_lower(s: Seq<char>) -> Seq<char> {
    s.map_values(|c: char| spec_lower_char(c))
}

/// Fields joined by single spaces.
pub open spec fn spec_join_sp(parts: Seq<Seq<char>>) -> Seq<char>
    decreases parts.len(),
{
    if parts.len() == 0 {
        seq![]
    } else if parts.len() == 1 {
        parts[0]
    } else {
        parts[0] + seq![' '] + spec_join_sp(parts.drop_first())
    }
}

/// Whether every character is a decimal digit.
pub open spec fn spec_all_digits(t: Seq<char>) -> bool {
    forall|i: int| 0 <= i < t.len() ==> 48 <= (#[trigger] t[i]) as u32 <= 57
}

/// The number decimal digits spell, most significant first.
pub open spec fn spec_digits_val(t: Seq<char>) -> int
    decreases t.len(),
{
    if t.len() == 0 {
        0
    } else {
        spec_digits_val(t.drop_last()) * 10 + (t.last() as u32 - 48)
    }
}

/// The status code a field spells: decimal digits only, within range.
pub open spec fn spec_parse_u16(t: Seq<char>) -> Option<u16> {
    if t.len() > 0 && spec_all_digits(t) && spec_digits_val(t) <= u16::MAX {
        Some(spec_digits_val(t) as u16)
    } else {
        None
    }
}

/// Whether a character is a hexadecimal digit.
pub open spec fn spec_is_hex_digit(c: char) -> bool {
    48 <= c as u32 <= 57 || 97 <= c as u32 <= 102 || 65 <= c as u32 <= 70
}

/// A hexadecimal digit's value.
pub open spec fn spec_hex_digit_val(c: char) -> int {
    if 48 <= c as u32 <= 57 {
        c as u32 - 48
    } else if 97 <= c as u32 <= 102 {
        c as u32 - 87
    } else {
        c as u32 - 55
    }
}

/// The number hexadecimal digits spell, most significant first.
pub open spec fn spec_hex_val(t: Seq<char>) -> int
    decreases t.len(),
{
    if t.len() == 0 {
        0
    } else {
        spec_hex_val(t.drop_last()) * 16 + spec_hex_digit_val(t.last())
    }
}

/// Whether every character is a hexadecimal digit.
pub open spec fn spec_all_hex(t: Seq<char>) -> bool {
    forall|i: int| 0 <= i < t.len() ==> spec_is_hex_digit(#[trigger] t[i])
}

/// The chunk size a field spells: hexadecimal digits only, nonempty,
/// within a 64-bit range.
pub open spec fn spec_parse_hex_u64(t: Seq<char>) -> Option<u64> {
    if t.len() > 0 && spec_all_hex(t) && spec_hex_val(t) <= u64::MAX {
        Some(spec_hex_val(t) as u64)
    } else {
        None
    }
}

/// The first position at or after `i` where a carriage return and a
/// newline stand together, or the end.
pub open spec fn spec_crlf_pos(s: Seq<char>, i: int) -> int
    decreases s.len() - i,
{
    if i < 0 || i + 1 >= s.len() {
        s.len() as int
    } else if s[i] == '\r' && s[i + 1] == '\n' {
        i
    } else {
        spec_crlf_pos(s, i + 1)
    }
}

/// A terminator position lies in range, on a terminator unless it is the
/// end, with none earlier.
pub proof fn lemma_crlf_pos_bounds(s: Seq<char>, i: int)
    requires
        0 <= i <= s.len(),
    ensures
        i <= spec_crlf_pos(s, i) <= s.len(),
        spec_crlf_pos(s, i) < s.len() ==> spec_crlf_pos(s, i) + 1 < s.len() && s[spec_crlf_pos(
            s,
            i,
        )] == '\r' && s[spec_crlf_pos(s, i) + 1] == '\n',
        forall|k: int|
            i <= k < spec_crlf_pos(s, i) && k + 1 < s.len() ==> !((#[trigger] s[k]) == '\r' && s[k
                + 1] == '\n'),
    decreases s.len() - i,
{
    if i + 1 < s.len() && !(s[i] == '\r' && s[i + 1] == '\n') {
        lemma_crlf_pos_bounds(s, i + 1);
    }
}

/// A scan that saw no terminator before `j` and one (or the end) at `j`
/// has found the position.
pub proof fn lemma_crlf_pos_is(s: Seq<char>, i: int, j: int)
    requires
        0 <= i <= j <= s.len(),
        forall|k: int|
            i <= k < j && k + 1 < s.len() ==> !((#[trigger] s[k]) == '\r' && s[k + 1] == '\n'),
        j == s.len() || (j + 1 < s.len() && s[j] == '\r' && s[j + 1] == '\n'),
        j + 1 == s.len() ==> j == s.len(),
    ensures
        spec_crlf_pos(s, i) == j,
    decreases j - i,
{
    if i < j {
        lemma_crlf_pos_is(s, i + 1, j);
    }
}

/// The characters of a string.
pub fn chars_of(s: &str) -> (r: Vec<char>)
    ensures
        r@ == s@,
{
    let n = s.unicode_len();
    let mut out: Vec<char> = Vec::new();
    let mut i: usize = 0;
    while i < n
        invariant
            i <= n,
            n == s@.len(),
            out@ == s@.subrange(0, i as int),
        decreases n - i,
    {
        out.push(s.get_char(i));
        proof {
            assert(out@ =~= s@.subrange(0, i + 1));
        }
        i = i + 1;
    }
    proof {
        assert(s@.subrange(0, s@.len() as int) =~= s@);
    }
    out
}

/// The first position of `c` at or after `i`, or the end.
fn find_char(cs: &Vec<char>, c: char, i: usize) -> (e: usize)
    requires
        i <= cs@.len(),
    ensures
        e == spec_char_pos(cs@, c, i as int),
{
    let mut j = i;
    while j < cs.len() && cs[j] != c
        invariant
            i <= j <= cs@.len(),
            forall|k: int| i <= k < j ==> cs@[k] != c,
        decreases cs@.len() - j,
    {
        j = j + 1;
    }
    proof {
        lemma_char_pos_is(cs@, c, i as int, j as int);
    }
    j
}

/// Whether a character is ASCII whitespace.
fn is_ws(c: char) -> (r: bool)
    ensures
        r == spec_is_ws(c),
{
    c == ' ' || c == '\t' || c == '\r' || c == '\n'
}

/// The characters `a..b`.
fn copy_range(cs: &Vec<char>, a: usize, b: usize) -> (r: Vec<char>)
    requires
        a <= b <= cs@.len(),
    ensures
        r@ == cs@.subrange(a as int, b as int),
{
    let mut out: Vec<char> = Vec::new();
    let mut k = a;
    while k < b
        invariant
            a <= k <= b <= cs@.len(),
            out@ == cs@.subrange(a as int, k as int),
        decreases b - k,
    {
        out.push(cs[k]);
        proof {
            assert(out@ =~= cs@.subrange(a as int, k + 1));
        }
        k = k + 1;
    }
    out
}

/// The character lists of a list of lists.
pub open spec fn seqs_view(v: Seq<Vec<char>>) -> Seq<Seq<char>> {
    v.map_values(|l: Vec<char>| l@)
}

/// The text's lines.
fn split_lines(cs: &Vec<char>) -> (r: Vec<Vec<char>>)
    ensures
        seqs_view(r@) == spec_lines(cs@),
{
    let mut out: Vec<Vec<char>> = Vec::new();
    let mut cur: usize = 0;
    proof {
        assert(seqs_view(out@) =~= Seq::<Seq<char>>::empty());
        assert(Seq::<Seq<char>>::empty() + spec_lines_from(cs@, 0) =~= spec_lines_from(cs@, 0));
    }
    while cur < cs.len()
        invariant
            cur <= cs@.len(),
            spec_lines(cs@) == seqs_view(out@) + spec_lines_from(cs@, cur as int),
        decreases cs@.len() - cur,
    {
        let e = find_char(cs, '\n', cur);
        proof {
            lemma_char_pos_bounds(cs@, '\n', cur as int);
        }
        let e2 = if e > cur && cs[e - 1] == '\r' {
            e - 1
        } else {
            e
        };
        let line = copy_range(cs, cur, e2);
        proof {
            assert(line@ =~= spec_strip_cr(cs@.subrange(cur as int, e as int))) by {
                if e > cur && cs@[e - 1] == '\r' {
                    assert(cs@.subrange(cur as int, e as int).drop_last() =~= cs@.subrange(
                        cur as int,
                        e as int - 1,
                    ));
                }
            }
        }
        let ghost prev = seqs_view(out@);
        let ghost lv = line@;
        out.push(line);
        proof {
            assert(seqs_view(out@) =~= prev.push(lv));
            assert(prev.push(lv) =~= prev + seq![lv]);
            if (e as int) < cs@.len() {
                assert((prev + seq![lv]) + spec_lines_from(cs@, e + 1) =~= prev + (seq![lv]
                    + spec_lines_from(cs@, e + 1)));
            } else {
                assert((prev + seq![lv]) =~= prev + seq![lv]);
            }
        }
        if e == cs.len() {
            proof {
                assert(spec_lines(cs@) =~= seqs_view(out@));
                assert(seqs_view(out@) + spec_lines_from(cs@, cs@.len() as int) =~= seqs_view(
                    out@,
                ));
            }
            return out;
        }
        cur = e + 1;
    }
    proof {
        assert(seqs_view(out@) + spec_lines_from(cs@, cur as int) =~= seqs_view(out@));
    }
    out
}

/// The text's whitespace-separated fields.
fn split_tokens(cs: &Vec<char>) -> (r: Vec<Vec<char>>)
    ensures
        seqs_view(r@) == spec_tokens(cs@),
{
    let mut out: Vec<Vec<char>> = Vec::new();
    let mut cur: usize = 0;
    proof {
        assert(seqs_view(out@) =~= Seq::<Seq<char>>::empty());
        assert(Seq::<Seq<char>>::empty() + spec_tokens_from(cs@, 0) =~= spec_tokens_from(cs@, 0));
    }
    while cur < cs.len()
        invariant
            cur <= cs@.len(),
            spec_tokens(cs@) == seqs_view(out@) + spec_tokens_from(cs@, cur as int),
        decreases cs@.len() - cur,
    {
        if is_ws(cs[cur]) {
            cur = cur + 1;
        } else {
            let mut e = cur;
            while e < cs.len() && !is_ws_at(cs, e)
                invariant
                    cur <= e <= cs@.len(),
                    forall|k: int| cur <= k < e ==> !spec_is_ws(cs@[k]),
                decreases cs@.len() - e,
            {
                e = e + 1;
            }
            proof {
                lemma_ws_pos_is(cs@, cur as int, e as int);
            }
            let token = copy_range(cs, cur, e);
            let ghost prev = seqs_view(out@);
            let ghost tv = token@;
            out.push(token);
            proof {
                assert(seqs_view(out@) =~= prev.push(tv));
                assert(prev.push(tv) =~= prev + seq![tv]);
                assert((prev + seq![tv]) + spec_tokens_from(cs@, e as int) =~= prev + (seq![tv]
                    + spec_tokens_from(cs@, e as int)));
            }
            cur = e;
        }
    }
    proof {
        assert(seqs_view(out@) + spec_tokens_from(cs@, cur as int) =~= seqs_view(out@));
    }
    out
}

/// Whether the character at `i` is whitespace.
fn is_ws_at(cs: &Vec<char>, i: usize) -> (r: bool)
    requires
        i < cs@.len(),
    ensures
        r == spec_is_ws(cs@[i as int]),
{
    is_ws(cs[i])
}

/// A run of leading whitespace ends where `spec_trim_start` begins.
proof fn lemma_trim_start_is(s: Seq<char>, a: int)
    requires
        0 <= a <= s.len(),
        forall|k: int| 0 <= k < a ==> spec_is_ws(s[k]),
        a == s.len() || !spec_is_ws(s[a]),
    ensures
        spec_trim_start(s) == s.subrange(a, s.len() as int),
    decreases a,
{
    if a == 0 {
        assert(s.subrange(0, s.len() as int) =~= s);
    } else {
        assert(s.drop_first() =~= s.subrange(1, s.len() as int));
        lemma_trim_start_is(s.drop_first(), a - 1);
        assert(s.drop_first().subrange(a - 1, s.drop_first().len() as int) =~= s.subrange(
            a,
            s.len() as int,
        ));
    }
}

/// A run of trailing whitespace starts where `spec_trim_end` stops.
proof fn lemma_trim_end_is(s: Seq<char>, b: int)
    requires
        0 <= b <= s.len(),
        forall|k: int| b <= k < s.len() ==> spec_is_ws(s[k]),
        b == 0 || !spec_is_ws(s[b - 1]),
    ensures
        spec_trim_end(s) == s.subrange(0, b),
    decreases s.len(),
{
    if b == s.len() {
        if s.len() > 0 && spec_is_ws(s.last()) {
            assert(false);
        }
        assert(s.subrange(0, s.len() as int) =~= s);
    } else {
        assert(s.drop_last() =~= s.subrange(0, s.len() - 1));
        lemma_trim_end_is(s.drop_last(), b);
        assert(s.drop_last().subrange(0, b) =~= s.subrange(0, b));
    }
}

/// The characters with whitespace shed at both ends.
fn trim_chars(cs: &Vec<char>) -> (r: Vec<char>)
    ensures
        r@ == spec_trim(cs@),
{
    let n = cs.len();
    let mut a: usize = 0;
    while a < n && is_ws_at(cs, a)
        invariant
            a <= n,
            n == cs@.len(),
            forall|k: int| 0 <= k < a ==> spec_is_ws(cs@[k]),
        decreases n - a,
    {
        a = a + 1;
    }
    let mut b: usize = n;
    while b > a && is_ws_at(cs, b - 1)
        invariant
            a <= b <= n,
            n == cs@.len(),
            forall|k: int| b <= k < n ==> spec_is_ws(cs@[k]),
        decreases b,
    {
        b = b - 1;
    }
    proof {
        lemma_trim_start_is(cs@, a as int);
        let t = cs@.subrange(a as int, n as int);
        assert forall|k: int| (b - a) <= k < t.len() implies spec_is_ws(t[k]) by {
            assert(t[k] == cs@[k + a]);
        }
        if b > a {
            assert(t[b - a - 1] == cs@[b - 1]);
        }
        lemma_trim_end_is(t, b - a);
        assert(t.subrange(0, b - a) =~= cs@.subrange(a as int, b as int));
    }
    copy_range(cs, a, b)
}

/// The characters lowered.
fn lower_chars(cs: &Vec<char>) -> (r: Vec<char>)
    ensures
        r@ == spec_lower(cs@),
{
    let mut out: Vec<char> = Vec::new();
    let mut i: usize = 0;
    while i < cs.len()
        invariant
            i <= cs@.len(),
            out@ == spec_lower(cs@.subrange(0, i as int)),
        decreases cs@.len() - i,
    {
        let c = cs[i];
        let u = c as u32;
        let lowered = if 65 <= u && u <= 90 {
            ((u + 32) as u8) as char
        } else {
            c
        };
        out.push(lowered);
        proof {
            assert(out@ =~= spec_lower(cs@.subrange(0, i + 1)));
        }
        i = i + 1;
    }
    proof {
        assert(cs@.subrange(0, cs@.len() as int) =~= cs@);
    }
    out
}

/// The view of header pairs.
pub open spec fn header_pairs_view(hs: Seq<(String, String)>) -> Seq<(Seq<char>, Seq<char>)> {
    hs.map_values(|p: (String, String)| (p.0@, p.1@))
}

/// The value of a request under construction.
#[verifier::ext_equal]
pub struct SpecHttpRequest {
    pub method: Seq<char>,
    pub path: Seq<char>,
    pub headers: Seq<(Seq<char>, Seq<char>)>,
    pub body: Option<Seq<char>>,
}

/// Header lines on the wire, each name, a colon and space, the value and
/// a line ending.
pub open spec fn spec_headers_text(hs: Seq<(Seq<char>, Seq<char>)>) -> Seq<char>
    decreases hs.len(),
{
    if hs.len() == 0 {
        seq![]
    } else {
        spec_headers_text(hs.drop_last()) + hs.last().0 + ": "@ + hs.last().1 + "\r\n"@
    }
}

/// A body's byte length as the machine counts it.
pub open spec fn spec_body_byte_len(b: Seq<char>) -> nat {
    (encode_utf8(b).len() as usize) as nat
}

/// Request text: the request line naming the protocol, a host header, a
/// keep-alive header, a content length when a body is set, the added
/// headers in order, a blank line, and the body.
pub open spec fn spec_build_request(m: SpecHttpRequest, host: Seq<char>) -> Seq<char> {
    m.method + " "@ + m.path + " HTTP/1.1\r\n"@ + "Host: "@ + host + "\r\n"@
        + "Connection: keep-alive\r\n"@ + (match m.body {
        Some(b) => "Content-Length: "@ + spec_dec_chars(spec_body_byte_len(b)) + "\r\n"@,
        None => Seq::<char>::empty(),
    }) + spec_headers_text(m.headers) + "\r\n"@ + (match m.body {
        Some(b) => b,
        None => Seq::<char>::empty(),
    })
}

/// A request under construction: method, path, headers in insertion
/// order, and an optional body.
#[derive(Debug)]
pub struct HttpRequest {
    method: String,
    path: String,
    headers: Vec<(String, String)>,
    body: Option<String>,
}

impl View for HttpRequest {
    type V = SpecHttpRequest;

    closed spec fn view(&self) -> SpecHttpRequest {
        SpecHttpRequest {
            method: self.method@,
            path: self.path@,
            headers: header_pairs_view(self.headers@),
            body: match self.body {
                Some(b) => Some(b@),
                None => None,
            },
        }
    }
}

impl HttpRequest {
    /// A request with a method and path and nothing else.
    pub fn new(method: &str, path: &str) -> (r: HttpRequest)
        ensures
            r@ == (SpecHttpRequest {
                method: method@,
                path: path@,
                headers: Seq::empty(),
                body: None,
            }),
    {
        let r = HttpRequest {
            method: method.to_owned(),
            path: path.to_owned(),
            headers: Vec::new(),
            body: None,
        };
        proof {
            assert(r@ =~= (SpecHttpRequest {
                method: method@,
                path: path@,
                headers: Seq::empty(),
                body: None,
            }));
        }
        r
    }

    /// Append a header.
    pub fn add_header(&mut self, name: &str, value: &str)
        ensures
            final(self)@ == (SpecHttpRequest {
                headers: old(self)@.headers.push((name@, value@)),
                ..old(self)@
            }),
    {
        let ghost prev = self.headers@;
        self.headers.push((name.to_owned(), value.to_owned()));
        proof {
            assert(header_pairs_view(self.headers@) =~= header_pairs_view(prev).push(
                (name@, value@),
            ));
            assert(final(self)@ =~= (SpecHttpRequest {
                headers: header_pairs_view(prev).push((name@, value@)),
                ..old(self)@
            }));
        }
    }

    /// Set the body.
    pub fn set_body(&mut self, body: &str)
        ensures
            final(self)@ == (SpecHttpRequest { body: Some(body@), ..old(self)@ }),
    {
        self.body = Some(body.to_owned());
        proof {
            assert(final(self)@ =~= (SpecHttpRequest { body: Some(body@), ..old(self)@ }));
        }
    }

    /// The request text for a host: exactly `spec_build_request`.
    pub fn build(&self, host: &str) -> (r: String)
        ensures
            r@ == spec_build_request(self@, host@),
    {
        let mut out = self.method.clone();
        out.append(" ");
        out.append(self.path.as_str());
        out.append(" HTTP/1.1\r\n");
        out.append("Host: ");
        out.append(host);
        out.append("\r\n");
        out.append("Connection: keep-alive\r\n");
        match &self.body {
            Some(b) => {
                out.append("Content-Length: ");
                let mut digits: Vec<char> = Vec::new();
                push_dec_chars(&mut digits, b.as_str().len() as u64);
                let d = string_from_chars(digits);
                out.append(d.as_str());
                out.append("\r\n");
            },
            None => {},
        }
        let ghost head = out@;
        let ghost hv = header_pairs_view(self.headers@);
        let mut i: usize = 0;
        while i < self.headers.len()
            invariant
                i <= self.headers@.len(),
                hv == header_pairs_view(self.headers@),
                out@ == head + spec_headers_text(hv.subrange(0, i as int)),
            decreases self.headers@.len() - i,
        {
            proof {
                assert(hv.subrange(0, i + 1).drop_last() =~= hv.subrange(0, i as int));
                assert(hv.subrange(0, i + 1).last() == hv[i as int]);
                assert(hv[i as int] == (self.headers@[i as int].0@, self.headers@[i as int].1@));
            }
            let pair = &self.headers[i];
            out.append(pair.0.as_str());
            out.append(": ");
            out.append(pair.1.as_str());
            out.append("\r\n");
            proof {
                assert(out@ =~= head + spec_headers_text(hv.subrange(0, i + 1)));
            }
            i = i + 1;
        }
        proof {
            assert(hv.subrange(0, hv.len() as int) =~= hv);
        }
        out.append("\r\n");
        match &self.body {
            Some(b) => {
                out.append(b.as_str());
            },
            None => {},
        }
        proof {
            assert(out@ =~= spec_build_request(self@, host@));
        }
        out
    }
}

/// The headers among the lines from `i` until the blank line: each line
/// with a colon becomes its name — trimmed and lowered — and its trimmed
/// value; a line without one is passed over.
pub open spec fn spec_collect_headers(lines: Seq<Seq<char>>, i: int) -> Seq<
    (Seq<char>, Seq<char>),
>
    decreases lines.len() - i,
{
    if i < 0 || i >= lines.len() || lines[i].len() == 0 {
        seq![]
    } else {
        let p = spec_char_pos(lines[i], ':', 0);
        (if p >= lines[i].len() {
            seq![]
        } else {
            seq![
                (
                    spec_lower(spec_trim(lines[i].subrange(0, p))),
                    spec_trim(lines[i].subrange(p + 1, lines[i].len() as int)),
                ),
            ]
        }) + spec_collect_headers(lines, i + 1)
    }
}

/// The line after the first blank line at or after `i`, or the end.
pub open spec fn spec_body_start(lines: Seq<Seq<char>>, i: int) -> int
    decreases lines.len() - i,
{
    if i < 0 || i >= lines.len() {
        lines.len() as int
    } else if lines[i].len() == 0 {
        i + 1
    } else {
        spec_body_start(lines, i + 1)
    }
}

/// The raw body: the lines from `i` on, each with a line ending restored.
pub open spec fn spec_body_text(lines: Seq<Seq<char>>, i: int) -> Seq<char>
    decreases lines.len() - i,
{
    if i < 0 || i >= lines.len() {
        seq![]
    } else {
        lines[i] + "\r\n"@ + spec_body_text(lines, i + 1)
    }
}

/// Whether the headers announce a chunked transfer encoding.
pub open spec fn spec_headers_chunked(hs: Seq<(Seq<char>, Seq<char>)>) -> bool {
    exists|i: int|
        0 <= i < hs.len() && (#[trigger] hs[i]).0 == "transfer-encoding"@ && spec_lower(hs[i].1)
            == "chunked"@
}

/// A chunked body decoded: size lines in hexadecimal — anything from a
/// semicolon on ignored — each followed by that many characters and a
/// line ending, ended by a zero-size chunk. A missing size-line
/// terminator, an unreadable size or a chunk cut short fail.
pub open spec fn spec_decode_chunked(s: Seq<char>) -> Result<Seq<char>, HttpError>
    decreases s.len(),
    via spec_decode_chunked_dec
{
    let p = spec_crlf_pos(s, 0);
    if p >= s.len() {
        Err(HttpError::MalformedChunkedBody)
    } else {
        let size_line = s.subrange(0, p);
        let size_str = spec_trim(size_line.subrange(0, spec_char_pos(size_line, ';', 0)));
        match spec_parse_hex_u64(size_str) {
            None => Err(HttpError::InvalidChunkSize),
            Some(size) => if size == 0 {
                Ok(seq![])
            } else {
                let rest = s.subrange(p + 2, s.len() as int);
                if rest.len() < size + 2 {
                    Err(HttpError::IncompleteChunk)
                } else {
                    match spec_decode_chunked(rest.subrange(size + 2, rest.len() as int)) {
                        Err(e) => Err(e),
                        Ok(tail) => Ok(rest.subrange(0, size as int) + tail),
                    }
                }
            },
        }
    }
}

#[via_fn]
proof fn spec_decode_chunked_dec(s: Seq<char>) {
    lemma_crlf_pos_bounds(s, 0);
}

/// The value of a parsed response.
#[verifier::ext_equal]
pub struct SpecHttpResponse {
    pub status: u16,
    pub status_text: Seq<char>,
    pub headers: Seq<(Seq<char>, Seq<char>)>,
    pub body: Seq<char>,
}

/// Response text parsed: the status line's second field is the code and
/// the rest of its fields, rejoined by single spaces, the reason text;
/// then the headers until the blank line; then the body, decoded when the
/// headers announce a chunked transfer and trimmed at its end otherwise.
pub open spec fn spec_http_parse(s: Seq<char>) -> Result<SpecHttpResponse, HttpError> {
    let lines = spec_lines(s);
    if lines.len() == 0 {
        Err(HttpError::EmptyResponse)
    } else {
        let parts = spec_tokens(lines[0]);
        if parts.len() == 0 {
            Err(HttpError::InvalidStatusLine)
        } else if parts.len() == 1 {
            Err(HttpError::MissingStatusCode)
        } else {
            match spec_parse_u16(parts[1]) {
                None => Err(HttpError::InvalidStatusCode),
                Some(status) => {
                    let status_text = spec_join_sp(parts.subrange(2, parts.len() as int));
                    let headers = spec_collect_headers(lines, 1);
                    let raw = spec_body_text(lines, spec_body_start(lines, 1));
                    if spec_headers_chunked(headers) {
                        match spec_decode_chunked(raw) {
                            Err(e) => Err(e),
                            Ok(body) => Ok(
                                SpecHttpResponse { status, status_text, headers, body },
                            ),
                        }
                    } else {
                        Ok(
                            SpecHttpResponse {
                                status,
                                status_text,
                                headers,
                                body: spec_trim_end(raw),
                            },
                        )
                    }
                },
            }
        }
    }
}

/// A longer digit string spells no smaller number.
proof fn lemma_digits_val_extends(t: Seq<char>, i: int)
    requires
        0 <= i <= t.len(),
        spec_all_digits(t),
    ensures
        spec_digits_val(t) >= spec_digits_val(t.subrange(0, i)),
        spec_digits_val(t.subrange(0, i)) >= 0,
    decreases t.len() - i,
{
    if i == t.len() {
        assert(t.subrange(0, t.len() as int) =~= t);
        lemma_digits_val_nonneg(t);
    } else {
        lemma_digits_val_extends(t, i + 1);
        lemma_digits_val_nonneg(t.subrange(0, i));
        assert(t.subrange(0, i + 1).drop_last() =~= t.subrange(0, i));
        assert(t.subrange(0, i + 1).last() == t[i]);
    }
}

/// Digits spell no negative number.
proof fn lemma_digits_val_nonneg(t: Seq<char>)
    requires
        spec_all_digits(t),
    ensures
        spec_digits_val(t) >= 0,
    decreases t.len(),
{
    if t.len() > 0 {
        assert(spec_all_digits(t.drop_last())) by {
            assert(forall|k: int| 0 <= k < t.len() - 1 ==> t.drop_last()[k] == t[k]);
        }
        lemma_digits_val_nonneg(t.drop_last());
    }
}

/// A longer hexadecimal string spells no smaller number.
proof fn lemma_hex_val_extends(t: Seq<char>, i: int)
    requires
        0 <= i <= t.len(),
        spec_all_hex(t),
    ensures
        spec_hex_val(t) >= spec_hex_val(t.subrange(0, i)),
        spec_hex_val(t.subrange(0, i)) >= 0,
    decreases t.len() - i,
{
    if i == t.len() {
        assert(t.subrange(0, t.len() as int) =~= t);
        lemma_hex_val_nonneg(t);
    } else {
        lemma_hex_val_extends(t, i + 1);
        lemma_hex_val_nonneg(t.subrange(0, i));
        assert(t.subrange(0, i + 1).drop_last() =~= t.subrange(0, i));
        assert(t.subrange(0, i + 1).last() == t[i]);
    }
}

/// Hexadecimal digits spell no negative number.
proof fn lemma_hex_val_nonneg(t: Seq<char>)
    requires
        spec_all_hex(t),
    ensures
        spec_hex_val(t) >= 0,
    decreases t.len(),
{
    if t.len() > 0 {
        assert(spec_all_hex(t.drop_last())) by {
            assert(forall|k: int| 0 <= k < t.len() - 1 ==> t.drop_last()[k] == t[k]);
        }
        lemma_hex_val_nonneg(t.drop_last());
    }
}

/// The status code a field spells, if it is one.
fn parse_u16_chars(t: &Vec<char>) -> (r: Option<u16>)
    ensures
        r == spec_parse_u16(t@),
{
    if t.len() == 0 {
        return None;
    }
    let mut val: u32 = 0;
    let mut i: usize = 0;
    while i < t.len()
        invariant
            i <= t@.len(),
            spec_all_digits(t@.subrange(0, i as int)),
            val == spec_digits_val(t@.subrange(0, i as int)),
            val <= 65535,
        decreases t@.len() - i,
    {
        let u = t[i] as u32;
        if u < 48 || u > 57 {
            proof {
                assert(48 <= t@[i as int] as u32 <= 57 ==> false);
                assert(!spec_all_digits(t@));
            }
            return None;
        }
        proof {
            assert(t@.subrange(0, i + 1).drop_last() =~= t@.subrange(0, i as int));
            assert(t@.subrange(0, i + 1).last() == t@[i as int]);
            assert forall|k: int| 0 <= k < i + 1 implies 48 <= (#[trigger] t@.subrange(
                0,
                i + 1,
            )[k]) as u32 <= 57 by {
                assert(t@.subrange(0, i + 1)[k] == t@[k]);
                if k < i {
                    assert(t@.subrange(0, i as int)[k] == t@[k]);
                }
            }
        }
        let next = val * 10 + (u - 48);
        if next > 65535 {
            proof {
                if spec_all_digits(t@) {
                    lemma_digits_val_extends(t@, i + 1);
                }
            }
            return None;
        }
        val = next;
        i = i + 1;
    }
    proof {
        assert(t@.subrange(0, t@.len() as int) =~= t@);
    }
    Some(val as u16)
}

/// The chunk size a field spells, if it is one.
fn parse_hex_chars(t: &Vec<char>) -> (r: Option<u64>)
    ensures
        r == spec_parse_hex_u64(t@),
{
    if t.len() == 0 {
        return None;
    }
    let mut val: u64 = 0;
    let mut i: usize = 0;
    while i < t.len()
        invariant
            i <= t@.len(),
            spec_all_hex(t@.subrange(0, i as int)),
            val == spec_hex_val(t@.subrange(0, i as int)),
        decreases t@.len() - i,
    {
        let u = t[i] as u32;
        let digit: u64 = if 48 <= u && u <= 57 {
            (u - 48) as u64
        } else if 97 <= u && u <= 102 {
            (u - 87) as u64
        } else if 65 <= u && u <= 70 {
            (u - 55) as u64
        } else {
            proof {
                assert(!spec_is_hex_digit(t@[i as int]));
                assert(!spec_all_hex(t@));
            }
            return None;
        };
        proof {
            assert(t@.subrange(0, i + 1).drop_last() =~= t@.subrange(0, i as int));
            assert(t@.subrange(0, i + 1).last() == t@[i as int]);
            assert forall|k: int| 0 <= k < i + 1 implies spec_is_hex_digit(
                #[trigger] t@.subrange(0, i + 1)[k],
            ) by {
                assert(t@.subrange(0, i + 1)[k] == t@[k]);
                if k < i {
                    assert(t@.subrange(0, i as int)[k] == t@[k]);
                }
            }
        }
        if val >= 0x1000000000000000 {
            proof {
                if spec_all_hex(t@) {
                    lemma_hex_val_extends(t@, i + 1);
                }
            }
            return None;
        }
        val = val * 16 + digit;
        i = i + 1;
    }
    proof {
        assert(t@.subrange(0, t@.len() as int) =~= t@);
        lemma_hex_val_nonneg(t@);
    }
    Some(val)
}

/// A parsed response: the code and reason of the status line, the headers
/// in order, and the body with its transfer encoding undone.
#[derive(Debug)]
pub struct HttpResponse {
    pub status: u16,
    pub status_text: String,
    pub headers: Vec<(String, String)>,
    pub body: String,
}

/// Decode a chunked body held in characters.
fn decode_chunked_chars(cs: &Vec<char>) -> (r: Result<Vec<char>, HttpError>)
    ensures
        match spec_decode_chunked(cs@) {
            Ok(b) => r is Ok && r->Ok_0@ == b,
            Err(e) => r == Err::<Vec<char>, HttpError>(e),
        },
{
    let mut out: Vec<char> = Vec::new();
    let mut cur: usize = 0;
    proof {
        assert(cs@.subrange(0, cs@.len() as int) =~= cs@);
    }
    loop
        invariant
            cur <= cs@.len(),
            spec_decode_chunked(cs@) == (match spec_decode_chunked(
                cs@.subrange(cur as int, cs@.len() as int),
            ) {
                Ok(t) => Ok::<Seq<char>, HttpError>(out@ + t),
                Err(e) => Err::<Seq<char>, HttpError>(e),
            }),
        decreases cs@.len() - cur,
    {
        let ghost s = cs@.subrange(cur as int, cs@.len() as int);
        let p = find_crlf_from(cs, cur);
        proof {
            lemma_crlf_shift(cs@, cur as int);
            lemma_crlf_pos_bounds(s, 0);
        }
        if p >= cs.len() {
            return Err(HttpError::MalformedChunkedBody);
        }
        let semi = find_char_bounded(cs, ';', cur, p);
        let size_field = copy_range(cs, cur, semi);
        proof {
            let size_line = s.subrange(0, p - cur);
            assert(size_line =~= cs@.subrange(cur as int, p as int));
            assert(size_field@ =~= size_line.subrange(
                0,
                spec_char_pos(size_line, ';', 0),
            ));
        }
        let size_trimmed = trim_chars(&size_field);
        let size = match parse_hex_chars(&size_trimmed) {
            Some(v) => v,
            None => {
                return Err(HttpError::InvalidChunkSize);
            },
        };
        if size == 0 {
            proof {
                assert(out@ + Seq::<char>::empty() =~= out@);
            }
            return Ok(out);
        }
        let remaining = cs.len() - (p + 2);
        let incomplete = if size > u64::MAX - 2 {
            true
        } else {
            (remaining as u64) < size + 2
        };
        if incomplete {
            proof {
                let rest = s.subrange(2 + (p - cur), s.len() as int);
                assert(rest.len() == remaining);
            }
            return Err(HttpError::IncompleteChunk);
        }
        proof {
            let rest = s.subrange(2 + (p - cur), s.len() as int);
            assert(rest.len() == remaining);
            assert(rest.len() >= size + 2);
        }
        let size_u: usize = size as usize;
        let data_start = p + 2;
        let ghost prev = out@;
        let mut piece = copy_range(cs, data_start, data_start + size_u);
        out.append(&mut piece);
        proof {
            let rest = s.subrange(2 + (p - cur), s.len() as int);
            assert(rest.subrange(0, size as int) =~= cs@.subrange(
                data_start as int,
                data_start + size_u,
            ));
            assert(out@ =~= prev + rest.subrange(0, size as int));
            let nxt = cs@.subrange(data_start + size_u + 2, cs@.len() as int);
            assert(rest.subrange(size + 2, rest.len() as int) =~= nxt);
            if spec_decode_chunked(nxt) is Ok {
                assert((prev + rest.subrange(0, size as int)) + spec_decode_chunked(nxt)->Ok_0
                    =~= prev + (rest.subrange(0, size as int) + spec_decode_chunked(nxt)->Ok_0));
            }
        }
        cur = data_start + size_u + 2;
    }
}

/// The first position of `c` in `[i, limit)`, or `limit`.
fn find_char_bounded(cs: &Vec<char>, c: char, i: usize, limit: usize) -> (e: usize)
    requires
        i <= limit <= cs@.len(),
    ensures
        i <= e <= limit,
        e == spec_char_pos(cs@.subrange(i as int, limit as int), c, 0) + i,
{
    let mut j = i;
    while j < limit && cs[j] != c
        invariant
            i <= j <= limit <= cs@.len(),
            forall|k: int| i <= k < j ==> cs@[k] != c,
        decreases limit - j,
    {
        j = j + 1;
    }
    proof {
        let sub = cs@.subrange(i as int, limit as int);
        assert forall|k: int| 0 <= k < j - i implies sub[k] != c by {
            assert(sub[k] == cs@[k + i]);
        }
        if j < limit {
            assert(sub[j - i] == cs@[j as int]);
        }
        lemma_char_pos_is(sub, c, 0, j - i);
    }
    j
}

/// A terminator found from `i` on sits where the suffix sees it.
proof fn lemma_crlf_shift(s: Seq<char>, i: int)
    requires
        0 <= i <= s.len(),
    ensures
        spec_crlf_pos(s, i) - i == spec_crlf_pos(s.subrange(i, s.len() as int), 0),
{
    let sub = s.subrange(i, s.len() as int);
    lemma_crlf_pos_bounds(s, i);
    let p = spec_crlf_pos(s, i);
    assert forall|k: int|
        0 <= k < p - i && k + 1 < sub.len() implies !((#[trigger] sub[k]) == '\r' && sub[k + 1]
        == '\n') by {
        assert(sub[k] == s[k + i] && sub[k + 1] == s[k + i + 1]);
    }
    if p < s.len() {
        assert(sub[p - i] == s[p] && sub[p - i + 1] == s[p + 1]);
    }
    lemma_crlf_pos_is(sub, 0, p - i);
}

/// The headers among the lines from `from` until the blank line.
fn collect_headers(lines: &Vec<Vec<char>>, from: usize) -> (r: Vec<(String, String)>)
    requires
        from <= lines@.len(),
    ensures
        header_pairs_view(r@) == spec_collect_headers(seqs_view(lines@), from as int),
{
    let ghost lv = seqs_view(lines@);
    let mut out: Vec<(String, String)> = Vec::new();
    let mut i = from;
    proof {
        assert(header_pairs_view(out@) =~= Seq::<(Seq<char>, Seq<char>)>::empty());
        assert(Seq::<(Seq<char>, Seq<char>)>::empty() + spec_collect_headers(lv, from as int)
            =~= spec_collect_headers(lv, from as int));
    }
    while i < lines.len()
        invariant
            from <= i <= lines@.len(),
            lv == seqs_view(lines@),
            spec_collect_headers(lv, from as int) == header_pairs_view(out@)
                + spec_collect_headers(lv, i as int),
        decreases lines@.len() - i,
    {
        proof {
            assert(lv[i as int] == lines@[i as int]@);
        }
        let line = &lines[i];
        if line.len() == 0 {
            proof {
                assert(header_pairs_view(out@) + spec_collect_headers(lv, i as int)
                    =~= header_pairs_view(out@));
            }
            return out;
        }
        let p = find_char(line, ':', 0);
        if p < line.len() {
            let raw_name = copy_range(line, 0, p);
            let name_trimmed = trim_chars(&raw_name);
            let name_lowered = lower_chars(&name_trimmed);
            let value_piece = copy_range(line, p + 1, line.len());
            let value_trimmed = trim_chars(&value_piece);
            let name = string_from_chars(name_lowered);
            let value = string_from_chars(value_trimmed);
            let ghost prev = header_pairs_view(out@);
            let ghost pair = (name@, value@);
            out.push((name, value));
            proof {
                assert(header_pairs_view(out@) =~= prev.push(pair));
                assert(prev.push(pair) =~= prev + seq![pair]);
                assert((prev + seq![pair]) + spec_collect_headers(lv, i as int + 1) =~= prev + (
                seq![pair] + spec_collect_headers(lv, i as int + 1)));
            }
        }
        i = i + 1;
    }
    proof {
        assert(header_pairs_view(out@) + spec_collect_headers(lv, lines@.len() as int)
            =~= header_pairs_view(out@));
    }
    out
}

/// The line after the first blank line at or after `from`, or the end.
fn body_start(lines: &Vec<Vec<char>>, from: usize) -> (r: usize)
    requires
        from <= lines@.len(),
    ensures
        r == spec_body_start(seqs_view(lines@), from as int),
        r <= lines@.len(),
    decreases lines@.len() - from,
{
    if from >= lines.len() {
        return lines.len();
    }
    proof {
        assert(seqs_view(lines@)[from as int] == lines@[from as int]@);
    }
    if lines[from].len() == 0 {
        from + 1
    } else {
        body_start(lines, from + 1)
    }
}

/// The raw body text: the lines from `from` on, line endings restored.
fn body_text(lines: &Vec<Vec<char>>, from: usize) -> (r: Vec<char>)
    requires
        from <= lines@.len(),
    ensures
        r@ == spec_body_text(seqs_view(lines@), from as int),
{
    let ghost lv = seqs_view(lines@);
    let mut out: Vec<char> = Vec::new();
    let mut i = from;
    proof {
        assert(out@ + spec_body_text(lv, from as int) =~= spec_body_text(lv, from as int));
    }
    while i < lines.len()
        invariant
            from <= i <= lines@.len(),
            lv == seqs_view(lines@),
            spec_body_text(lv, from as int) == out@ + spec_body_text(lv, i as int),
        decreases lines@.len() - i,
    {
        proof {
            assert(lv[i as int] == lines@[i as int]@);
        }
        let line = &lines[i];
        let mut k: usize = 0;
        let ghost before = out@;
        while k < line.len()
            invariant
                k <= line@.len(),
                out@ == before + line@.subrange(0, k as int),
            decreases line@.len() - k,
        {
            out.push(line[k]);
            proof {
                assert(out@ =~= before + line@.subrange(0, k + 1));
            }
            k = k + 1;
        }
        out.push('\r');
        out.push('\n');
        proof {
            assert(line@.subrange(0, line@.len() as int) =~= line@);
            reveal_strlit("\r\n");
            assert(out@ =~= (before + lv[i as int]) + "\r\n"@);
            assert((before + lv[i as int] + "\r\n"@) + spec_body_text(lv, i as int + 1) =~= before
                + (lv[i as int] + "\r\n"@ + spec_body_text(lv, i as int + 1)));
        }
        i = i + 1;
    }
    proof {
        assert(out@ + spec_body_text(lv, lines@.len() as int) =~= out@);
    }
    out
}

/// Whether the headers announce a chunked transfer encoding.
fn headers_chunked(headers: &Vec<(String, String)>) -> (r: bool)
    ensures
        r == spec_headers_chunked(header_pairs_view(headers@)),
{
    let ghost hv = header_pairs_view(headers@);
    let mut i: usize = 0;
    while i < headers.len()
        invariant
            i <= headers@.len(),
            hv == header_pairs_view(headers@),
            forall|j: int|
                0 <= j < i ==> !((#[trigger] hv[j]).0 == "transfer-encoding"@ && spec_lower(
                    hv[j].1,
                ) == "chunked"@),
        decreases headers@.len() - i,
    {
        proof {
            assert(hv[i as int] == (headers@[i as int].0@, headers@[i as int].1@));
        }
        let pair = &headers[i];
        let te = "transfer-encoding".to_owned();
        if pair.0.eq(&te) {
            let value_chars = chars_of(pair.1.as_str());
            let lowered = lower_chars(&value_chars);
            let lowered_s = string_from_chars(lowered);
            let ck = "chunked".to_owned();
            if lowered_s.eq(&ck) {
                proof {
                    assert(hv[i as int].0 == "transfer-encoding"@ && spec_lower(hv[i as int].1)
                        == "chunked"@);
                }
                return true;
            }
        }
        i = i + 1;
    }
    false
}

impl HttpResponse {
    /// Parse response text: exactly the value and errors of
    /// `spec_http_parse`.
    pub fn parse(response: &str) -> (r: Result<HttpResponse, HttpError>)
        ensures
            match spec_http_parse(response@) {
                Ok(m) => r is Ok && r->Ok_0.status == m.status && r->Ok_0.status_text@
                    == m.status_text && header_pairs_view(r->Ok_0.headers@) == m.headers
                    && r->Ok_0.body@ == m.body,
                Err(e) => r == Err::<HttpResponse, HttpError>(e),
            },
    {
        let cs = chars_of(response);
        let lines = split_lines(&cs);
        if lines.len() == 0 {
            return Err(HttpError::EmptyResponse);
        }
        proof {
            assert(seqs_view(lines@)[0] == lines@[0]@);
        }
        let parts = split_tokens(&lines[0]);
        if parts.len() == 0 {
            return Err(HttpError::InvalidStatusLine);
        }
        if parts.len() == 1 {
            return Err(HttpError::MissingStatusCode);
        }
        proof {
            assert(seqs_view(parts@)[1] == parts@[1]@);
        }
        let status = match parse_u16_chars(&parts[1]) {
            Some(v) => v,
            None => {
                return Err(HttpError::InvalidStatusCode);
            },
        };
        let mut text_chars: Vec<char> = Vec::new();
        proof {
            assert(text_chars@ + spec_join_sp(seqs_view(parts@).subrange(2, parts@.len() as int))
                =~= spec_join_sp(seqs_view(parts@).subrange(2, parts@.len() as int)));
        }
        let mut t: usize = 2;
        while t < parts.len()
            invariant
                2 <= t <= parts@.len(),
                spec_join_sp(seqs_view(parts@).subrange(2, parts@.len() as int)) == text_chars@
                    + spec_join_sp(seqs_view(parts@).subrange(t as int, parts@.len() as int)),
            decreases parts@.len() - t,
        {
            let ghost pv = seqs_view(parts@);
            let ghost sub = pv.subrange(t as int, parts@.len() as int);
            proof {
                assert(sub[0] == pv[t as int]);
                assert(pv[t as int] == parts@[t as int]@);
                assert(sub.drop_first() =~= pv.subrange(t as int + 1, parts@.len() as int));
            }
            let ghost before = text_chars@;
            let token = &parts[t];
            let mut k: usize = 0;
            while k < token.len()
                invariant
                    k <= token@.len(),
                    text_chars@ == before + token@.subrange(0, k as int),
                decreases token@.len() - k,
            {
                text_chars.push(token[k]);
                proof {
                    assert(text_chars@ =~= before + token@.subrange(0, k + 1));
                }
                k = k + 1;
            }
            proof {
                assert(token@.subrange(0, token@.len() as int) =~= token@);
            }
            if t + 1 < parts.len() {
                text_chars.push(' ');
                proof {
                    assert(text_chars@ =~= before + (pv[t as int] + seq![' ']));
                    assert((before + (pv[t as int] + seq![' '])) + spec_join_sp(
                        pv.subrange(t as int + 1, parts@.len() as int),
                    ) =~= before + (pv[t as int] + seq![' '] + spec_join_sp(
                        pv.subrange(t as int + 1, parts@.len() as int),
                    )));
                }
            } else {
                proof {
                    assert(sub.len() == 1);
                    assert(text_chars@ =~= before + spec_join_sp(sub));
                    assert(pv.subrange(t as int + 1, parts@.len() as int).len() == 0);
                    assert(text_chars@ + spec_join_sp(
                        pv.subrange(t as int + 1, parts@.len() as int),
                    ) =~= text_chars@);
                }
            }
            t = t + 1;
        }
        proof {
            assert(spec_join_sp(
                seqs_view(parts@).subrange(parts@.len() as int, parts@.len() as int),
            ) == Seq::<char>::empty());
            assert(text_chars@ + Seq::<char>::empty() =~= text_chars@);
        }
        let status_text = string_from_chars(text_chars);
        let headers = collect_headers(&lines, 1);
        let start = body_start(&lines, 1);
        let raw = body_text(&lines, start);
        if headers_chunked(&headers) {
            match decode_chunked_chars(&raw) {
                Ok(body_chars) => {
                    let body = string_from_chars(body_chars);
                    Ok(HttpResponse { status, status_text, headers, body })
                },
                Err(e) => Err(e),
            }
        } else {
            let trimmed = trim_end_chars(&raw);
            let body = string_from_chars(trimmed);
            Ok(HttpResponse { status, status_text, headers, body })
        }
    }

    /// Decode a chunked body held as text: exactly the value and errors
    /// of `spec_decode_chunked`.
    pub fn decode_chunked_body(chunked_body: &str) -> (r: Result<String, HttpError>)
        ensures
            match spec_decode_chunked(chunked_body@) {
                Ok(b) => r is Ok && r->Ok_0@ == b,
                Err(e) => r == Err::<String, HttpError>(e),
            },
    {
        let cs = chars_of(chunked_body);
        match decode_chunked_chars(&cs) {
            Ok(out) => Ok(string_from_chars(out)),
            Err(e) => Err(e),
        }
    }
}

/// The characters with trailing whitespace shed.
fn trim_end_chars(cs: &Vec<char>) -> (r: Vec<char>)
    ensures
        r@ == spec_trim_end(cs@),
{
    let n = cs.len();
    let mut b: usize = n;
    while b > 0 && is_ws_at(cs, b - 1)
        invariant
            b <= n,
            n == cs@.len(),
            forall|k: int| b <= k < n ==> spec_is_ws(cs@[k]),
        decreases b,
    {
        b = b - 1;
    }
    proof {
        lemma_trim_end_is(cs@, b as int);
    }
    copy_range(cs, 0, b)
}

/// What one look at a buffered chunked body yields.
#[derive(Debug)]
pub enum ChunkStep {
    /// The buffer does not yet hold a whole size line or chunk.
    NeedMore,
    /// One whole chunk: its data, and how many characters of the buffer
    /// it and its size line took.
    Chunk { data: String, consumed: usize },
    /// The terminating zero-size chunk: the body is complete.
    Done,
}

/// Look once at a buffered chunked body: not enough buffered yet, one
/// complete chunk — its data and the count of characters consumed, the
/// size line and both line endings included — or the terminating
/// zero-size chunk. The step behind an incremental read loop: the caller
/// buffers what a socket gave so far, consumes whole chunks as they
/// complete, and reads on when more is needed.
pub fn chunked_step(buffer: &str) -> (r: Result<ChunkStep, HttpError>)
    ensures
        ({
            let s = buffer@;
            let p = spec_crlf_pos(s, 0);
            if p >= s.len() {
                r matches Ok(step) && step is NeedMore
            } else {
                let size_line = s.subrange(0, p);
                let size_str = spec_trim(
                    size_line.subrange(0, spec_char_pos(size_line, ';', 0)),
                );
                match spec_parse_hex_u64(size_str) {
                    None => r == Err::<ChunkStep, HttpError>(HttpError::InvalidChunkSize),
                    Some(size) => if size == 0 {
                        r matches Ok(step) && step is Done
                    } else if s.len() - (p + 2) < size + 2 {
                        r matches Ok(step) && step is NeedMore
                    } else {
                        r matches Ok(step) && (step matches ChunkStep::Chunk { data, consumed }
                            && data@ == s.subrange(p + 2, p + 2 + size) && consumed == p + 2 + size
                            + 2)
                    },
                }
            }
        }),
{
    let cs = chars_of(buffer);
    let p = find_crlf_from(&cs, 0);
    proof {
        lemma_crlf_pos_bounds(cs@, 0);
    }
    if p >= cs.len() {
        return Ok(ChunkStep::NeedMore);
    }
    let semi = find_char_bounded(&cs, ';', 0, p);
    let size_field = copy_range(&cs, 0, semi);
    proof {
        let size_line = cs@.subrange(0, p as int);
        assert(size_line.subrange(0, spec_char_pos(size_line, ';', 0)) =~= size_field@);
    }
    let size_trimmed = trim_chars(&size_field);
    let size = match parse_hex_chars(&size_trimmed) {
        Some(v) => v,
        None => {
            return Err(HttpError::InvalidChunkSize);
        },
    };
    if size == 0 {
        return Ok(ChunkStep::Done);
    }
    let remaining = cs.len() - (p + 2);
    let incomplete = if size > u64::MAX - 2 {
        true
    } else {
        (remaining as u64) < size + 2
    };
    if incomplete {
        return Ok(ChunkStep::NeedMore);
    }
    let size_u: usize = size as usize;
    let data_chars = copy_range(&cs, p + 2, p + 2 + size_u);
    let data = string_from_chars(data_chars);
    let consumed = p + 2 + size_u + 2;
    Ok(ChunkStep::Chunk { data, consumed })
}

/// The first chunk terminator at or after `i` in the whole buffer.
fn find_crlf_from(cs: &Vec<char>, i: usize) -> (e: usize)
    requires
        i <= cs@.len(),
    ensures
        e == spec_crlf_pos(cs@, i as int),
        i <= e <= cs@.len(),
{
    let r = find_crlf_scan(cs, i);
    proof {
        lemma_crlf_pos_bounds(cs@, i as int);
    }
    r
}

/// Scan for a chunk terminator.
fn find_crlf_scan(cs: &Vec<char>, i: usize) -> (e: usize)
    requires
        i <= cs@.len(),
    ensures
        e == spec_crlf_pos(cs@, i as int),
{
    let n = cs.len();
    let mut j = i;
    loop
        invariant
            i <= j <= n,
            n == cs@.len(),
            forall|k: int|
                i <= k < j && k + 1 < n ==> !((#[trigger] cs@[k]) == '\r' && cs@[k + 1] == '\n'),
        decreases n - j,
    {
        if j >= n || j + 1 >= n {
            proof {
                lemma_crlf_pos_is(cs@, i as int, n as int);
            }
            return n;
        }
        if cs[j] == '\r' && cs[j + 1] == '\n' {
            proof {
                lemma_crlf_pos_is(cs@, i as int, j as int);
            }
            return j;
        }
        j = j + 1;
    }
}

} // verus!
