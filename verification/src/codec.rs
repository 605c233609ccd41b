//! The secrets text codec.
//!
//! A collection is written as one `KEY="VALUE"` line per entry, in
//! ascending key order. Values are escaped exactly as JSON string
//! literals (the escaping mechanism is borrowed from JSON; the stream is
//! not a JSON document). On input, `#` outside a quoted value starts a
//! comment, blank lines are skipped, a bare value token is treated as if
//! it were quoted, and a later duplicate key overwrites an earlier one.

use vstd::prelude::*;
use vstd::utf8::*;
use crate::errors::{DecodeError, EncodeError};
use crate::secrets::Secrets;
use crate::byteseq::string_from_utf8;
use vstd::slice::slice_to_vec;

verus! {

/// The bytes treated as surrounding whitespace: space, tab, CR.
pub open spec fn is_ws(b: u8) -> bool {
    b == 0x20 || b == 0x09 || b == 0x0d
}

/// Lower-case hex digit for a nibble.
pub open spec fn hex_digit(n: u8) -> u8
    recommends
        n < 16,
{
    if n < 10 {
        (0x30 + n) as u8
    } else {
        (0x57 + n) as u8
    }
}

/// How one byte of a value is written inside the quotes: `"` and `\` get
/// a backslash, the common control characters get their short escapes,
/// other control bytes become `\u00XX`, and everything else (including
/// UTF-8 continuation bytes) passes through.
pub open spec fn escape_byte(b: u8) -> Seq<u8> {
    if b == 0x22 {  // " -> \"
        seq![0x5cu8, 0x22u8]
    } else if b == 0x5c {  // \ -> \\
        seq![0x5cu8, 0x5cu8]
    } else if b == 0x08 {  // backspace -> \b
        seq![0x5cu8, 0x62u8]
    } else if b == 0x09 {  // tab -> \t
        seq![0x5cu8, 0x74u8]
    } else if b == 0x0a {  // newline -> \n
        seq![0x5cu8, 0x6eu8]
    } else if b == 0x0c {  // form feed -> \f
        seq![0x5cu8, 0x66u8]
    } else if b == 0x0d {  // CR -> \r
        seq![0x5cu8, 0x72u8]
    } else if b < 0x20 {  // other control bytes -> \u00XX
        seq![0x5cu8, 0x75u8, 0x30u8, 0x30u8, hex_digit(b / 16), hex_digit(b % 16)]
    } else {
        seq![b]
    }
}

/// A whole value, escaped byte for byte.
pub open spec fn escape_bytes(s: Seq<u8>) -> Seq<u8>
    decreases s.len(),
{
    if s.len() == 0 {
        seq![]
    } else {
        escape_byte(s[0]) + escape_bytes(s.skip(1))
    }
}

/// A value as it appears on a line: escaped and wrapped in quotes.
pub open spec fn quoted(s: Seq<u8>) -> Seq<u8> {
    seq![0x22u8] + escape_bytes(s) + seq![0x22u8]
}

/// One output line: `KEY="VALUE"` and a newline.
pub open spec fn encode_entry(k: Seq<u8>, v: Seq<u8>) -> Seq<u8> {
    k + seq![0x3du8] + quoted(v) + seq![0x0au8]
}

/// The whole output: the entries' lines, in storage order.
pub open spec fn encode_spec(entries: Seq<(Seq<u8>, Seq<u8>)>) -> Seq<u8>
    decreases entries.len(),
{
    if entries.len() == 0 {
        seq![]
    } else {
        encode_entry(entries[0].0, entries[0].1) + encode_spec(entries.skip(1))
    }
}

pub proof fn lemma_escape_bytes_append(a: Seq<u8>, b: Seq<u8>)
    ensures
        escape_bytes(a + b) == escape_bytes(a) + escape_bytes(b),
    decreases a.len(),
{
    if a.len() == 0 {
        assert(a + b =~= b);
        assert(escape_bytes(a) + escape_bytes(b) =~= escape_bytes(b));
    } else {
        assert((a + b)[0] == a[0]);
        assert((a + b).skip(1) =~= a.skip(1) + b);
        lemma_escape_bytes_append(a.skip(1), b);
        assert(escape_byte(a[0]) + (escape_bytes(a.skip(1)) + escape_bytes(b)) =~= (escape_byte(
            a[0],
        ) + escape_bytes(a.skip(1))) + escape_bytes(b));
    }
}

pub proof fn lemma_escape_bytes_singleton(b: u8)
    ensures
        escape_bytes(seq![b]) == escape_byte(b),
{
    assert(seq![b].skip(1) =~= Seq::<u8>::empty());
    assert(escape_byte(b) + escape_bytes(seq![b].skip(1)) =~= escape_byte(b));
}

pub proof fn lemma_encode_spec_append(a: Seq<(Seq<u8>, Seq<u8>)>, b: Seq<(Seq<u8>, Seq<u8>)>)
    ensures
        encode_spec(a + b) == encode_spec(a) + encode_spec(b),
    decreases a.len(),
{
    if a.len() == 0 {
        assert(a + b =~= b);
        assert(encode_spec(a) + encode_spec(b) =~= encode_spec(b));
    } else {
        assert((a + b)[0] == a[0]);
        assert((a + b).skip(1) =~= a.skip(1) + b);
        lemma_encode_spec_append(a.skip(1), b);
        assert(encode_entry(a[0].0, a[0].1) + (encode_spec(a.skip(1)) + encode_spec(b)) =~= (
        encode_entry(a[0].0, a[0].1) + encode_spec(a.skip(1))) + encode_spec(b));
    }
}

pub proof fn lemma_encode_spec_singleton(k: Seq<u8>, v: Seq<u8>)
    ensures
        encode_spec(seq![(k, v)]) == encode_entry(k, v),
{
    assert(seq![(k, v)].skip(1) =~= Seq::<(Seq<u8>, Seq<u8>)>::empty());
    assert(encode_entry(k, v) + encode_spec(seq![(k, v)].skip(1)) =~= encode_entry(k, v));
}

// ---------------------------------------------------------------------
// Decoding, specification side.
// ---------------------------------------------------------------------
/// The value of one hex digit (both cases accepted, as in JSON).
pub open spec fn hex_val(b: u8) -> Option<u8> {
    if 0x30 <= b && b <= 0x39 {
        Some((b - 0x30) as u8)
    } else if 0x61 <= b && b <= 0x66 {
        Some((b - 0x57) as u8)
    } else if 0x41 <= b && b <= 0x46 {
        Some((b - 0x37) as u8)
    } else {
        None
    }
}

/// The value of a four-digit hex group, as in `\uXXXX`.
pub open spec fn hex4_val(s: Seq<u8>) -> Option<u32>
    recommends
        s.len() == 4,
{
    match (hex_val(s[0]), hex_val(s[1]), hex_val(s[2]), hex_val(s[3])) {
        (Some(a), Some(b), Some(c), Some(d)) => Some(
            (a * 0x1000 + b * 0x100 + c * 0x10 + d) as u32,
        ),
        _ => None,
    }
}

/// The scalar encoded by a JSON surrogate pair.
pub open spec fn combine_surrogates(hi: u32, lo: u32) -> u32
    recommends
        0xd800 <= hi <= 0xdbff,
        0xdc00 <= lo <= 0xdfff,
{
    (0x10000 + (hi - 0xd800) * 0x400 + (lo - 0xdc00)) as u32
}

/// Prefix some bytes onto the result of unescaping a remainder.
pub open spec fn prepend(bs: Seq<u8>, r: Option<Seq<u8>>) -> Option<Seq<u8>> {
    match r {
        Some(t) => Some(bs + t),
        None => None,
    }
}

/// Unescape the contents of a quoted string literal (without the outer
/// quotes), exactly as a JSON string literal is unescaped: backslash
/// escapes, `\uXXXX` with surrogate pairs, no raw quote and no raw
/// control character. `None` means the token is malformed.
pub open spec fn unescape_inner(s: Seq<u8>) -> Option<Seq<u8>>
    decreases s.len(),
{
    if s.len() == 0 {
        Some(seq![])
    } else if s[0] == 0x22 {  // a raw quote: the literal ended before the token did
        None
    } else if s[0] == 0x5c {
        if s.len() < 2 {
            None
        } else {
            let e = s[1];
            if e == 0x22 || e == 0x5c || e == 0x2f {
                prepend(seq![e], unescape_inner(s.skip(2)))
            } else if e == 0x62 {
                prepend(seq![0x08u8], unescape_inner(s.skip(2)))
            } else if e == 0x74 {
                prepend(seq![0x09u8], unescape_inner(s.skip(2)))
            } else if e == 0x6e {
                prepend(seq![0x0au8], unescape_inner(s.skip(2)))
            } else if e == 0x66 {
                prepend(seq![0x0cu8], unescape_inner(s.skip(2)))
            } else if e == 0x72 {
                prepend(seq![0x0du8], unescape_inner(s.skip(2)))
            } else if e == 0x75 {
                if s.len() < 6 {
                    None
                } else {
                    match hex4_val(s.subrange(2, 6)) {
                        None => None,
                        Some(cp) => {
                            if 0xd800 <= cp && cp <= 0xdbff {
                                if s.len() < 12 || s[6] != 0x5c || s[7] != 0x75 {
                                    None
                                } else {
                                    match hex4_val(s.subrange(8, 12)) {
                                        None => None,
                                        Some(lo) => {
                                            if 0xdc00 <= lo && lo <= 0xdfff {
                                                prepend(
                                                    encode_scalar(combine_surrogates(cp, lo)),
                                                    unescape_inner(s.skip(12)),
                                                )
                                            } else {
                                                None
                                            }
                                        },
                                    }
                                }
                            } else if 0xdc00 <= cp && cp <= 0xdfff {
                                None
                            } else {
                                prepend(encode_scalar(cp), unescape_inner(s.skip(6)))
                            }
                        },
                    }
                }
            } else {
                None
            }
        }
    } else if s[0] < 0x20 {  // raw control characters are not accepted
        None
    } else {
        prepend(seq![s[0]], unescape_inner(s.skip(1)))
    }
}

/// Unescape a whole value token: if it is wrapped in quotes the contents
/// are unescaped, otherwise the bare token is treated as if it had been
/// wrapped in quotes first.
pub open spec fn unescape_token(tok: Seq<u8>) -> Option<Seq<u8>> {
    if tok.len() >= 2 && tok[0] == 0x22 && tok[tok.len() - 1] == 0x22 {
        unescape_inner(tok.subrange(1, tok.len() - 1))
    } else {
        unescape_inner(tok)
    }
}

/// Where a line is cut by a comment: the length of the part kept, i.e.
/// the index of the first `#` that stands outside a quoted region, or
/// the line length if there is none. Inside quotes a backslash protects
/// the byte after it.
pub open spec fn comment_cut(s: Seq<u8>, in_quotes: bool) -> int
    decreases s.len(),
{
    if s.len() == 0 {
        0
    } else if in_quotes {
        if s[0] == 0x5c && s.len() >= 2 {
            2 + comment_cut(s.skip(2), true)
        } else if s[0] == 0x22 {
            1 + comment_cut(s.skip(1), false)
        } else {
            1 + comment_cut(s.skip(1), true)
        }
    } else {
        if s[0] == 0x23 {
            0
        } else if s[0] == 0x22 {
            1 + comment_cut(s.skip(1), true)
        } else {
            1 + comment_cut(s.skip(1), false)
        }
    }
}

pub proof fn lemma_comment_cut_bounds(s: Seq<u8>, in_quotes: bool)
    ensures
        0 <= comment_cut(s, in_quotes) <= s.len(),
    decreases s.len(),
{
    if s.len() > 0 {
        lemma_comment_cut_bounds(s.skip(1), true);
        lemma_comment_cut_bounds(s.skip(1), false);
        if s.len() >= 2 {
            lemma_comment_cut_bounds(s.skip(2), true);
        }
    }
}

/// A line with its trailing comment stripped.
pub open spec fn strip_comment(line: Seq<u8>) -> Seq<u8> {
    line.take(comment_cut(line, false))
}

/// How many whitespace bytes the sequence starts with.
pub open spec fn trim_start_idx(s: Seq<u8>) -> int
    decreases s.len(),
{
    if s.len() > 0 && is_ws(s[0]) {
        1 + trim_start_idx(s.skip(1))
    } else {
        0
    }
}

/// The length that remains when trailing whitespace is dropped.
pub open spec fn trim_end_idx(s: Seq<u8>) -> int
    decreases s.len(),
{
    if s.len() > 0 && is_ws(s.last()) {
        trim_end_idx(s.drop_last())
    } else {
        s.len() as int
    }
}

/// The sequence with surrounding whitespace removed.
pub open spec fn trim_bytes(s: Seq<u8>) -> Seq<u8> {
    let t = s.skip(trim_start_idx(s));
    t.take(trim_end_idx(t))
}

/// The index of the first occurrence of `b`, or -1.
pub open spec fn find_byte(s: Seq<u8>, b: u8) -> int
    decreases s.len(),
{
    if s.len() == 0 {
        -1
    } else if s[0] == b {
        0
    } else {
        let r = find_byte(s.skip(1), b);
        if r < 0 {
            -1
        } else {
            1 + r
        }
    }
}

pub proof fn lemma_find_byte(s: Seq<u8>, b: u8)
    ensures
        find_byte(s, b) == -1 ==> forall|k: int| 0 <= k < s.len() ==> s[k] != b,
        find_byte(s, b) != -1 ==> 0 <= find_byte(s, b) < s.len() && s[find_byte(s, b)] == b
            && forall|k: int| 0 <= k < find_byte(s, b) ==> s[k] != b,
    decreases s.len(),
{
    if s.len() > 0 && s[0] != b {
        lemma_find_byte(s.skip(1), b);
        assert forall|k: int| 1 <= k < s.len() implies s[k] == s.skip(1)[k - 1] by {}
    }
}

/// What one logical line contributes: nothing, an entry, or a failure.
pub open spec fn parse_line(line: Seq<u8>) -> Result<Option<(Seq<u8>, Seq<u8>)>, DecodeError> {
    let content = trim_bytes(strip_comment(line));
    if content.len() == 0 {
        Ok(None)
    } else {
        let e = find_byte(content, 0x3d);
        if e < 0 {
            Err(DecodeError::MissingSeparator)
        } else {
            let kb = trim_bytes(content.take(e));
            let tok = trim_bytes(content.skip(e + 1));
            if kb.len() == 0 {
                Err(DecodeError::EmptyKey)
            } else {
                match unescape_token(tok) {
                    None => Err(DecodeError::InvalidValue),
                    Some(vb) => {
                        if valid_utf8(kb) && valid_utf8(vb) {
                            Ok(Some((kb, vb)))
                        } else {
                            Err(DecodeError::InvalidUtf8)
                        }
                    },
                }
            }
        }
    }
}

/// The input split at newlines; a trailing newline yields a final empty
/// line, which decoding skips as blank.
pub open spec fn split_lines(s: Seq<u8>) -> Seq<Seq<u8>>
    decreases s.len(),
    via split_lines_decreases
{
    let nl = find_byte(s, 0x0a);
    if nl < 0 {
        seq![s]
    } else {
        seq![s.take(nl)] + split_lines(s.skip(nl + 1))
    }
}

#[via_fn]
proof fn split_lines_decreases(s: Seq<u8>) {
    lemma_find_byte(s, 0x0a);
}

/// Decode a list of lines on top of what was decoded so far; a later
/// entry with the same key overwrites an earlier one; the first bad line
/// fails the whole decode.
pub open spec fn decode_lines(
    lines: Seq<Seq<u8>>,
    acc: Map<Seq<u8>, Seq<u8>>,
) -> Result<Map<Seq<u8>, Seq<u8>>, DecodeError>
    decreases lines.len(),
{
    if lines.len() == 0 {
        Ok(acc)
    } else {
        match parse_line(lines[0]) {
            Err(e) => Err(e),
            Ok(None) => decode_lines(lines.skip(1), acc),
            Ok(Some((k, v))) => decode_lines(lines.skip(1), acc.insert(k, v)),
        }
    }
}

/// What decoding an input byte stream yields.
pub open spec fn decode_spec(s: Seq<u8>) -> Result<Map<Seq<u8>, Seq<u8>>, DecodeError> {
    decode_lines(split_lines(s), Map::empty())
}

// ---------------------------------------------------------------------
// Encoding, executable side.
// ---------------------------------------------------------------------
fn hex_digit_exec(n: u8) -> (r: u8)
    requires
        n < 16,
    ensures
        r == hex_digit(n),
{
    if n < 10 {
        0x30 + n
    } else {
        0x57 + n
    }
}

/// Append a byte slice to an output buffer.
fn push_bytes(out: &mut Vec<u8>, s: &[u8])
    ensures
        final(out)@ == old(out)@ + s@,
{
    let mut i: usize = 0;
    while i < s.len()
        invariant
            i <= s@.len(),
            out@ == old(out)@ + s@.take(i as int),
        decreases s@.len() - i,
    {
        out.push(s[i]);
        proof {
            assert(s@.take(i + 1) =~= s@.take(i as int).push(s@[i as int]));
            assert(out@ =~= old(out)@ + s@.take(i + 1));
        }
        i = i + 1;
    }
    proof {
        assert(s@.take(s@.len() as int) =~= s@);
    }
}

/// Append a value's bytes, escaped, to an output buffer.
fn push_escaped(out: &mut Vec<u8>, v: &[u8])
    ensures
        final(out)@ == old(out)@ + escape_bytes(v@),
{
    let mut i: usize = 0;
    proof {
        assert(v@.take(0) =~= Seq::<u8>::empty());
        assert(out@ =~= old(out)@ + escape_bytes(v@.take(0)));
    }
    while i < v.len()
        invariant
            i <= v@.len(),
            out@ == old(out)@ + escape_bytes(v@.take(i as int)),
        decreases v@.len() - i,
    {
        let ghost pre = out@;
        let b = v[i];
        if b == 0x22 {
            out.push(0x5c);
            out.push(0x22);
        } else if b == 0x5c {
            out.push(0x5c);
            out.push(0x5c);
        } else if b == 0x08 {
            out.push(0x5c);
            out.push(0x62);
        } else if b == 0x09 {
            out.push(0x5c);
            out.push(0x74);
        } else if b == 0x0a {
            out.push(0x5c);
            out.push(0x6e);
        } else if b == 0x0c {
            out.push(0x5c);
            out.push(0x66);
        } else if b == 0x0d {
            out.push(0x5c);
            out.push(0x72);
        } else if b < 0x20 {
            out.push(0x5c);
            out.push(0x75);
            out.push(0x30);
            out.push(0x30);
            out.push(hex_digit_exec(b / 16));
            out.push(hex_digit_exec(b % 16));
        } else {
            out.push(b);
        }
        proof {
            assert(out@ =~= pre + escape_byte(b));
            assert(v@.take(i + 1) =~= v@.take(i as int) + seq![b]);
            lemma_escape_bytes_append(v@.take(i as int), seq![b]);
            lemma_escape_bytes_singleton(b);
            assert(out@ =~= old(out)@ + escape_bytes(v@.take(i + 1)));
        }
        i = i + 1;
    }
    proof {
        assert(v@.take(v@.len() as int) =~= v@);
    }
}

impl Secrets {
    /// Write the collection as `KEY="VALUE"` lines, appended to `buf` in
    /// ascending key order. Escaping cannot fail; with an in-memory
    /// buffer as the writer there is no failure at all.
    pub fn to_writer(&self, buf: &mut Vec<u8>) -> (r: Result<(), EncodeError>)
        ensures
            r is Ok,
            final(buf)@ == old(buf)@ + encode_spec(self.entries()),
    {
        let mut i: usize = 0;
        proof {
            assert(self.entries().take(0) =~= Seq::<(Seq<u8>, Seq<u8>)>::empty());
            assert(buf@ =~= old(buf)@ + encode_spec(self.entries().take(0)));
        }
        while i < self.content.len()
            invariant
                i <= self.content@.len(),
                buf@ == old(buf)@ + encode_spec(self.entries().take(i as int)),
            decreases self.content@.len() - i,
        {
            let ghost pre = buf@;
            push_bytes(buf, self.content[i].0.as_str().as_bytes());
            buf.push(0x3d);
            buf.push(0x22);
            push_escaped(buf, self.content[i].1.as_str().as_bytes());
            buf.push(0x22);
            buf.push(0x0a);
            proof {
                let k = self.key_at(i as int);
                let v = self.value_at(i as int);
                assert(buf@ =~= pre + encode_entry(k, v));
                assert(self.entries().take(i + 1) =~= self.entries().take(i as int) + seq![(k, v)]);
                lemma_encode_spec_append(self.entries().take(i as int), seq![(k, v)]);
                lemma_encode_spec_singleton(k, v);
                assert(buf@ =~= old(buf)@ + encode_spec(self.entries().take(i + 1)));
            }
            i = i + 1;
        }
        proof {
            assert(self.entries().take(self.entries().len() as int) =~= self.entries());
        }
        Ok(())
    }
}

// ---------------------------------------------------------------------
// Decoding, executable side.
// ---------------------------------------------------------------------
fn hex_val_exec(b: u8) -> (r: Option<u8>)
    ensures
        r == hex_val(b),
{
    if 0x30 <= b && b <= 0x39 {
        Some(b - 0x30)
    } else if 0x61 <= b && b <= 0x66 {
        Some(b - 0x57)
    } else if 0x41 <= b && b <= 0x46 {
        Some(b - 0x37)
    } else {
        None
    }
}

fn hex4_exec(s: &[u8], at: usize) -> (r: Option<u32>)
    requires
        at + 4 <= s@.len(),
    ensures
        r == hex4_val(s@.subrange(at as int, at as int + 4)),
{
    let a = hex_val_exec(s[at]);
    let b = hex_val_exec(s[at + 1]);
    let c = hex_val_exec(s[at + 2]);
    let d = hex_val_exec(s[at + 3]);
    proof {
        let sub = s@.subrange(at as int, at as int + 4);
        assert(sub[0] == s@[at as int]);
        assert(sub[1] == s@[at as int + 1]);
        assert(sub[2] == s@[at as int + 2]);
        assert(sub[3] == s@[at as int + 3]);
    }
    match (a, b, c, d) {
        (Some(x), Some(y), Some(z), Some(w)) => Some(
            (x as u32) * 0x1000 + (y as u32) * 0x100 + (z as u32) * 0x10 + (w as u32),
        ),
        _ => None,
    }
}

/// Append the UTF-8 encoding of one Unicode scalar.
fn push_scalar_bytes(out: &mut Vec<u8>, cp: u32)
    requires
        is_scalar(cp),
    ensures
        final(out)@ == old(out)@ + encode_scalar(cp),
{
    let ghost pre = out@;
    if cp <= 0x7f {
        out.push((cp & 0x7f) as u8);
    } else if cp <= 0x7ff {
        out.push(0xc0 | ((cp >> 6) & 0x1f) as u8);
        out.push(0x80 | (cp & 0x3f) as u8);
    } else if cp <= 0xffff {
        out.push(0xe0 | ((cp >> 12) & 0x0f) as u8);
        out.push(0x80 | ((cp >> 6) & 0x3f) as u8);
        out.push(0x80 | (cp & 0x3f) as u8);
    } else {
        out.push(0xf0 | ((cp >> 18) & 0x7) as u8);
        out.push(0x80 | ((cp >> 12) & 0x3f) as u8);
        out.push(0x80 | ((cp >> 6) & 0x3f) as u8);
        out.push(0x80 | (cp & 0x3f) as u8);
    }
    proof {
        assert(out@ =~= pre + encode_scalar(cp));
    }
}

/// Unescape the contents of a string literal; `None` if it is malformed.
/// Process one escape unit starting at `i`: append the bytes it
/// stands for and return the position after it, or `None` if the
/// literal is malformed at this point.
#[verifier::rlimit(100)]
fn unescape_step(s: &[u8], i: usize, out: &mut Vec<u8>) -> (r: Option<usize>)
    requires
        i < s@.len(),
    ensures
        match r {
            None => unescape_inner(s@.skip(i as int)) == None::<Seq<u8>>,
            Some(ni) => ({
                &&& i < ni <= s@.len()
                &&& old(out)@.len() <= final(out)@.len()
                &&& final(out)@.take(old(out)@.len() as int) == old(out)@
                &&& unescape_inner(s@.skip(i as int)) == prepend(
                    final(out)@.skip(old(out)@.len() as int),
                    unescape_inner(s@.skip(ni as int)),
                )
            }),
        },
{
    let ghost suf = s@.skip(i as int);
    let ghost pre = out@;
    let b = s[i];
    proof {
        assert(suf[0] == b);
    }
    if b == 0x22 {
        return None;
    } else if b == 0x5c {
        if i + 1 == s.len() {
            return None;
        }
        let e = s[i + 1];
        proof {
            assert(suf[1] == e);
        }
        let mut rep: u8 = 0;
        let mut simple = true;
        if e == 0x22 || e == 0x5c || e == 0x2f {
            rep = e;
        } else if e == 0x62 {
            rep = 0x08;
        } else if e == 0x74 {
            rep = 0x09;
        } else if e == 0x6e {
            rep = 0x0a;
        } else if e == 0x66 {
            rep = 0x0c;
        } else if e == 0x72 {
            rep = 0x0d;
        } else {
            simple = false;
        }
        if simple {
            out.push(rep);
            proof {
                assert(suf.skip(2) =~= s@.skip(i + 2));
                assert(out@.take(pre.len() as int) =~= pre);
                assert(out@.skip(pre.len() as int) =~= seq![rep]);
                assert(unescape_inner(suf) == prepend(seq![rep], unescape_inner(s@.skip(i + 2))));
            }
            Some(i + 2)
        } else if e == 0x75 {
            if s.len() - i < 6 {
                return None;
            }
            proof {
                assert(suf.subrange(2, 6) =~= s@.subrange(i + 2, i + 6));
            }
            match hex4_exec(s, i + 2) {
                None => None,
                Some(cp) => {
                    if 0xd800 <= cp && cp <= 0xdbff {
                        if s.len() - i < 12 {
                            return None;
                        }
                        if s[i + 6] != 0x5c || s[i + 7] != 0x75 {
                            proof {
                                assert(suf[6] == s@[i + 6]);
                                assert(suf[7] == s@[i + 7]);
                            }
                            return None;
                        }
                        proof {
                            assert(suf[6] == s@[i + 6]);
                            assert(suf[7] == s@[i + 7]);
                            assert(suf.subrange(8, 12) =~= s@.subrange(i + 8, i + 12));
                        }
                        match hex4_exec(s, i + 8) {
                            None => None,
                            Some(lo) => {
                                if !(0xdc00 <= lo && lo <= 0xdfff) {
                                    return None;
                                }
                                let scalar = 0x10000 + (cp - 0xd800) * 0x400 + (lo - 0xdc00);
                                proof {
                                    assert(scalar == combine_surrogates(cp, lo));
                                    assert(is_scalar(scalar));
                                }
                                push_scalar_bytes(out, scalar);
                                proof {
                                    assert(suf.skip(12) =~= s@.skip(i + 12));
                                    assert(out@.take(pre.len() as int) =~= pre);
                                    assert(out@.skip(pre.len() as int) =~= encode_scalar(scalar));
                                    assert(unescape_inner(suf) == prepend(
                                        encode_scalar(scalar),
                                        unescape_inner(s@.skip(i + 12)),
                                    ));
                                }
                                Some(i + 12)
                            },
                        }
                    } else if 0xdc00 <= cp && cp <= 0xdfff {
                        None
                    } else {
                        proof {
                            assert(is_scalar(cp));
                        }
                        push_scalar_bytes(out, cp);
                        proof {
                            assert(suf.skip(6) =~= s@.skip(i + 6));
                            assert(out@.take(pre.len() as int) =~= pre);
                            assert(out@.skip(pre.len() as int) =~= encode_scalar(cp));
                            assert(unescape_inner(suf) == prepend(
                                encode_scalar(cp),
                                unescape_inner(s@.skip(i + 6)),
                            ));
                        }
                        Some(i + 6)
                    }
                },
            }
        } else {
            None
        }
    } else if b < 0x20 {
        None
    } else {
        out.push(b);
        proof {
            assert(suf.skip(1) =~= s@.skip(i + 1));
            assert(out@.take(pre.len() as int) =~= pre);
            assert(out@.skip(pre.len() as int) =~= seq![b]);
            assert(unescape_inner(suf) == prepend(seq![b], unescape_inner(s@.skip(i + 1))));
        }
        Some(i + 1)
    }
}

/// Unescape the contents of a string literal; `None` if it is malformed.
fn unescape_inner_exec(s: &[u8]) -> (r: Option<Vec<u8>>)
    ensures
        match r {
            Some(v) => unescape_inner(s@) == Some(v@),
            None => unescape_inner(s@) == None::<Seq<u8>>,
        },
{
    let mut out: Vec<u8> = Vec::new();
    let mut i: usize = 0;
    proof {
        assert(s@.skip(0) =~= s@);
    }
    loop
        invariant
            i <= s@.len(),
            match unescape_inner(s@.skip(i as int)) {
                Some(t) => unescape_inner(s@) == Some(out@ + t),
                None => unescape_inner(s@) == None::<Seq<u8>>,
            },
        decreases s@.len() - i,
    {
        if i == s.len() {
            proof {
                assert(s@.skip(i as int) =~= Seq::<u8>::empty());
                assert(out@ + Seq::<u8>::empty() =~= out@);
            }
            return Some(out);
        }
        let ghost pre = out@;
        match unescape_step(s, i, &mut out) {
            None => {
                return None;
            },
            Some(ni) => {
                proof {
                    let u = out@.skip(pre.len() as int);
                    assert(out@ =~= pre + u);
                    match unescape_inner(s@.skip(ni as int)) {
                        Some(t) => {
                            assert(pre + (u + t) =~= out@ + t);
                        },
                        None => {},
                    }
                }
                i = ni;
            },
        }
    }
}

/// Unescape a whole value token (wrapping a bare token in quotes first).
fn unescape_token_exec(tok: &[u8]) -> (r: Option<Vec<u8>>)
    ensures
        match r {
            Some(v) => unescape_token(tok@) == Some(v@),
            None => unescape_token(tok@) == None::<Seq<u8>>,
        },
{
    if tok.len() >= 2 && tok[0] == 0x22 && tok[tok.len() - 1] == 0x22 {
        unescape_inner_exec(&tok[1..tok.len() - 1])
    } else {
        unescape_inner_exec(tok)
    }
}

/// Where this line is cut by a line comment.
fn comment_cut_exec(line: &[u8]) -> (c: usize)
    ensures
        c <= line@.len(),
        c == comment_cut(line@, false),
{
    let mut i: usize = 0;
    let mut in_q = false;
    proof {
        assert(line@.skip(0) =~= line@);
    }
    loop
        invariant
            i <= line@.len(),
            comment_cut(line@, false) == i + comment_cut(line@.skip(i as int), in_q),
        decreases line@.len() - i,
    {
        if i == line.len() {
            proof {
                assert(line@.skip(i as int) =~= Seq::<u8>::empty());
            }
            return i;
        }
        let b = line[i];
        proof {
            assert(line@.skip(i as int)[0] == b);
        }
        if in_q {
            if b == 0x5c && i + 1 < line.len() {
                proof {
                    assert(line@.skip(i as int).skip(2) =~= line@.skip(i + 2));
                }
                i = i + 2;
            } else {
                proof {
                    assert(line@.skip(i as int).skip(1) =~= line@.skip(i + 1));
                }
                if b == 0x22 {
                    in_q = false;
                }
                i = i + 1;
            }
        } else {
            if b == 0x23 {
                proof {
                    lemma_comment_cut_bounds(line@.skip(i as int), false);
                }
                return i;
            }
            proof {
                assert(line@.skip(i as int).skip(1) =~= line@.skip(i + 1));
            }
            if b == 0x22 {
                in_q = true;
            }
            i = i + 1;
        }
    }
}

/// The bounds of the sequence once surrounding whitespace is dropped.
fn trim_range(s: &[u8]) -> (r: (usize, usize))
    ensures
        r.0 <= r.1 <= s@.len(),
        s@.subrange(r.0 as int, r.1 as int) == trim_bytes(s@),
{
    let mut a: usize = 0;
    proof {
        assert(s@.skip(0) =~= s@);
    }
    loop
        invariant
            a <= s@.len(),
            trim_start_idx(s@) == a + trim_start_idx(s@.skip(a as int)),
        ensures
            a == trim_start_idx(s@),
            a <= s@.len(),
        decreases s@.len() - a,
    {
        if a == s.len() {
            proof {
                assert(s@.skip(a as int) =~= Seq::<u8>::empty());
            }
            break ;
        }
        let b = s[a];
        proof {
            assert(s@.skip(a as int)[0] == b);
        }
        if b == 0x20 || b == 0x09 || b == 0x0d {
            proof {
                assert(s@.skip(a as int).skip(1) =~= s@.skip(a + 1));
            }
            a = a + 1;
        } else {
            break ;
        }
    }
    let ghost t = s@.skip(a as int);
    let mut bend: usize = s.len();
    proof {
        assert(t.take((s@.len() - a) as int) =~= t);
    }
    loop
        invariant
            a <= bend <= s@.len(),
            t == s@.skip(a as int),
            trim_end_idx(t) == trim_end_idx(t.take(bend - a)),
        ensures
            a <= bend <= s@.len(),
            trim_end_idx(t) == bend - a,
        decreases bend,
    {
        if bend == a {
            proof {
                assert(t.take(0) =~= Seq::<u8>::empty());
            }
            break ;
        }
        let c = s[bend - 1];
        proof {
            assert(t.take(bend - a)[bend - a - 1] == s@[bend - 1]);
            assert(t.take(bend - a).last() == s@[bend - 1]);
        }
        if c == 0x20 || c == 0x09 || c == 0x0d {
            proof {
                assert(t.take(bend - a).drop_last() =~= t.take(bend - a - 1));
            }
            bend = bend - 1;
        } else {
            break ;
        }
    }
    proof {
        assert(s@.subrange(a as int, bend as int) =~= t.take(trim_end_idx(t)));
    }
    (a, bend)
}

/// The index of the next `b` at or after `from`.
fn find_byte_from(s: &[u8], from: usize, b: u8) -> (r: Option<usize>)
    requires
        from <= s@.len(),
    ensures
        match r {
            Some(j) => from <= j && j < s@.len() && s@[j as int] == b && find_byte(
                s@.skip(from as int),
                b,
            ) == j - from,
            None => find_byte(s@.skip(from as int), b) == -1,
        },
{
    let mut j = from;
    loop
        invariant
            from <= j <= s@.len(),
            find_byte(s@.skip(j as int), b) == -1 ==> find_byte(s@.skip(from as int), b) == -1,
            find_byte(s@.skip(j as int), b) >= 0 ==> find_byte(s@.skip(from as int), b)
                == find_byte(s@.skip(j as int), b) + j - from,
        decreases s@.len() - j,
    {
        if j == s.len() {
            proof {
                assert(s@.skip(j as int) =~= Seq::<u8>::empty());
            }
            return None;
        }
        if s[j] == b {
            proof {
                assert(s@.skip(j as int)[0] == b);
            }
            return Some(j);
        }
        proof {
            assert(s@.skip(j as int)[0] != b);
            assert(s@.skip(j as int).skip(1) =~= s@.skip(j + 1));
            lemma_find_byte(s@.skip(j + 1), b);
        }
        j = j + 1;
    }
}

fn parse_line_exec(line: &[u8]) -> (r: Result<Option<(String, String)>, DecodeError>)
    ensures
        match r {
            Ok(opt) => match opt {
                None => parse_line(line@) == Ok::<Option<(Seq<u8>, Seq<u8>)>, DecodeError>(None),
                Some(kv) => parse_line(line@) == Ok::<Option<(Seq<u8>, Seq<u8>)>, DecodeError>(
                    Some((encode_utf8(kv.0@), encode_utf8(kv.1@))),
                ),
            },
            Err(e) => parse_line(line@) == Err::<Option<(Seq<u8>, Seq<u8>)>, DecodeError>(e),
        },
{
    let cut = comment_cut_exec(line);
    let stripped = &line[0..cut];
    proof {
        assert(stripped@ =~= strip_comment(line@));
    }
    let tr = trim_range(stripped);
    let content = &stripped[tr.0..tr.1];
    proof {
        assert(content@ =~= trim_bytes(strip_comment(line@)));
    }
    if content.len() == 0 {
        return Ok(None);
    }
    proof {
        assert(content@.skip(0) =~= content@);
    }
    match find_byte_from(content, 0, 0x3d) {
        None => Err(DecodeError::MissingSeparator),
        Some(e) => {
            let kslice0 = &content[0..e];
            let ktr = trim_range(kslice0);
            let kslice = &kslice0[ktr.0..ktr.1];
            proof {
                assert(kslice0@ =~= content@.take(e as int));
                assert(kslice@ =~= trim_bytes(content@.take(e as int)));
            }
            if kslice.len() == 0 {
                return Err(DecodeError::EmptyKey);
            }
            let vslice0 = &content[e + 1..content.len()];
            let vtr = trim_range(vslice0);
            let tok = &vslice0[vtr.0..vtr.1];
            proof {
                assert(vslice0@ =~= content@.skip(e + 1));
                assert(tok@ =~= trim_bytes(content@.skip(e + 1)));
            }
            match unescape_token_exec(tok) {
                None => Err(DecodeError::InvalidValue),
                Some(vbytes) => {
                    let kvec = slice_to_vec(kslice);
                    match string_from_utf8(kvec) {
                        Err(_) => Err(DecodeError::InvalidUtf8),
                        Ok(kstr) => match string_from_utf8(vbytes) {
                            Err(_) => Err(DecodeError::InvalidUtf8),
                            Ok(vstr) => Ok(Some((kstr, vstr))),
                        },
                    }
                },
            }
        },
    }
}

impl Secrets {
    /// Read a buffer of `KEY="VALUE"` lines into a collection. Comments
    /// and blank lines are skipped, a later duplicate key overwrites an
    /// earlier one, and the first malformed line fails the decode.
    pub fn from_reader(input: &[u8]) -> (r: Result<Secrets, DecodeError>)
        ensures
            match r {
                Ok(s) => s.wf() && decode_spec(input@) == Ok::<Map<Seq<u8>, Seq<u8>>, DecodeError>(
                    s@,
                ),
                Err(e) => decode_spec(input@) == Err::<Map<Seq<u8>, Seq<u8>>, DecodeError>(e),
            },
    {
        let mut secrets = Secrets::new();
        let n = input.len();
        let mut pos: usize = 0;
        proof {
            assert(input@.skip(0) =~= input@);
            assert(input@.len() == n);
        }
        loop
            invariant
                pos <= input@.len(),
                input@.len() <= usize::MAX,
                secrets.wf(),
                decode_lines(split_lines(input@), Map::<Seq<u8>, Seq<u8>>::empty()) == decode_lines(
                    split_lines(input@.skip(pos as int)),
                    secrets@,
                ),
            decreases input@.len() - pos,
        {
            let found = find_byte_from(input, pos, 0x0a);
            let line_end: usize;
            let has_more: bool;
            match found {
                Some(j) => {
                    line_end = j;
                    has_more = true;
                },
                None => {
                    line_end = input.len();
                    has_more = false;
                },
            }
            let line = &input[pos..line_end];
            let ghost suf = input@.skip(pos as int);
            let ghost rest_lines = if has_more {
                split_lines(input@.skip(line_end + 1))
            } else {
                Seq::<Seq<u8>>::empty()
            };
            proof {
                if has_more {
                    assert(suf.take(line_end - pos) =~= line@);
                    assert(suf.skip(line_end - pos + 1) =~= input@.skip(line_end + 1));
                    assert(split_lines(suf) == seq![line@] + rest_lines);
                    assert((seq![line@] + rest_lines)[0] == line@);
                    assert((seq![line@] + rest_lines).skip(1) =~= rest_lines);
                } else {
                    assert(suf =~= line@);
                    assert(split_lines(suf) == seq![line@]);
                    assert(seq![line@][0] == line@);
                    assert(seq![line@].skip(1) =~= rest_lines);
                }
                assert(split_lines(suf).len() > 0);
            }
            match parse_line_exec(line) {
                Err(e) => {
                    proof {
                        assert(decode_lines(split_lines(suf), secrets@) == Err::<
                            Map<Seq<u8>, Seq<u8>>,
                            DecodeError,
                        >(e));
                    }
                    return Err(e);
                },
                Ok(None) => {
                    proof {
                        assert(decode_lines(split_lines(suf), secrets@) == decode_lines(
                            rest_lines,
                            secrets@,
                        ));
                    }
                },
                Ok(Some(kv)) => {
                    let (k, v) = kv;
                    let ghost kb = encode_utf8(k@);
                    let ghost vb = encode_utf8(v@);
                    proof {
                        assert(decode_lines(split_lines(suf), secrets@) == decode_lines(
                            rest_lines,
                            secrets@.insert(kb, vb),
                        ));
                    }
                    secrets.insert(k, v);
                },
            }
            if !has_more {
                proof {
                    assert(decode_lines(rest_lines, secrets@) == Ok::<
                        Map<Seq<u8>, Seq<u8>>,
                        DecodeError,
                    >(secrets@));
                }
                return Ok(secrets);
            }
            assert(line_end < input@.len());
            pos = line_end + 1;
        }
    }
}

} // verus!
