//! The codec's round-trip laws: decoding an encoded collection yields
//! the same mapping, and encoding is deterministic in the mapping.

use vstd::prelude::*;
use vstd::utf8::*;
use crate::codec::{escape_byte, escape_bytes, quoted, encode_entry, encode_spec, hex_val, hex4_val,
    unescape_inner, unescape_token, prepend, hex_digit, is_ws, comment_cut, strip_comment,
    trim_bytes, trim_start_idx, trim_end_idx, find_byte, parse_line, split_lines, decode_lines,
    decode_spec};
use crate::byteseq::{lex_lt, lemma_lex_lt_irreflexive, lemma_lex_lt_asymmetric};
use crate::errors::DecodeError;
use crate::secrets::{Secrets, map_of, insert_all};

verus! {

/// A hex digit emitted by the encoder reads back as its nibble.
proof fn lemma_hex_digit_roundtrip(n: u8)
    requires
        n < 16,
    ensures
        hex_val(hex_digit(n)) == Some(n),
{
}

/// One escaped byte, followed by anything, unescapes to that byte
/// followed by the unescaping of the rest.
proof fn lemma_unescape_escape_byte(b: u8, w: Seq<u8>)
    ensures
        unescape_inner(escape_byte(b) + w) == prepend(seq![b], unescape_inner(w)),
{
    let s = escape_byte(b) + w;
    if b == 0x22 || b == 0x5c {
        assert(s[0] == 0x5c && s[1] == b);
        assert(s.skip(2) =~= w);
    } else if b == 0x08 || b == 0x09 || b == 0x0a || b == 0x0c || b == 0x0d {
        assert(s[0] == 0x5c);
        assert(s.skip(2) =~= w);
    } else if b < 0x20 {
        assert(s[0] == 0x5c && s[1] == 0x75);
        assert(s.len() >= 6);
        let h = s.subrange(2, 6);
        assert(h[0] == 0x30 && h[1] == 0x30 && h[2] == hex_digit(b / 16) && h[3] == hex_digit(
            b % 16,
        ));
        lemma_hex_digit_roundtrip(b / 16);
        lemma_hex_digit_roundtrip(b % 16);
        assert(hex4_val(h) == Some(((b / 16) * 0x10 + (b % 16)) as u32));
        assert((b / 16) * 0x10 + (b % 16) == b) by {
            assert(b == 16 * (b / 16) + (b % 16));
        }
        let cp = b as u32;
        assert(hex4_val(h) == Some(cp));
        assert(!(0xd800 <= cp && cp <= 0xdbff));
        assert(!(0xdc00 <= cp && cp <= 0xdfff));
        assert(s.skip(6) =~= w);
        assert(unescape_inner(s) == prepend(encode_scalar(cp), unescape_inner(w)));
        assert(has_width_1_encoding(cp));
        assert(cp & 0x7f == cp) by (bit_vector)
            requires
                cp < 0x20,
        ;
        assert(encode_scalar(cp) =~= seq![b]);
    } else {
        assert(s[0] == b);
        assert(b != 0x22 && b != 0x5c && !(b < 0x20));
        assert(s.skip(1) =~= w);
    }
}

/// Unescaping inverts escaping: the contents of an encoded value read
/// back as exactly the value bytes that were escaped.
pub proof fn lemma_unescape_escape(v: Seq<u8>)
    ensures
        unescape_inner(escape_bytes(v)) == Some(v),
    decreases v.len(),
{
    if v.len() == 0 {
        assert(escape_bytes(v) =~= Seq::<u8>::empty());
    } else {
        lemma_unescape_escape(v.skip(1));
        lemma_unescape_escape_byte(v[0], escape_bytes(v.skip(1)));
        assert(seq![v[0]] + v.skip(1) =~= v);
    }
}

/// A key that survives the line format unchanged: non-empty, free of
/// the structural bytes (newline, `=`, `#`, `"`), and not starting or
/// ending with whitespace. Keys outside this set cannot round-trip,
/// since keys are written raw.
pub open spec fn key_wf(k: Seq<u8>) -> bool {
    &&& k.len() > 0
    &&& forall|i: int|
        0 <= i < k.len() ==> #[trigger] k[i] != 0x0a && k[i] != 0x3d && k[i] != 0x23 && k[i]
            != 0x22
    &&& !is_ws(k[0])
    &&& !is_ws(k[k.len() - 1])
}

/// The line an entry is written as, without the trailing newline.
pub open spec fn line_of(k: Seq<u8>, v: Seq<u8>) -> Seq<u8> {
    k + seq![0x3du8] + quoted(v)
}

proof fn lemma_insert_all_snoc(es: Seq<(Seq<u8>, Seq<u8>)>, e: (Seq<u8>, Seq<u8>), acc: Map<
    Seq<u8>,
    Seq<u8>,
>)
    ensures
        insert_all(es.push(e), acc) == insert_all(es, acc).insert(e.0, e.1),
    decreases es.len(),
{
    if es.len() == 0 {
        assert(es.push(e)[0] == e);
        assert(es.push(e).skip(1) =~= Seq::<(Seq<u8>, Seq<u8>)>::empty());
        assert(insert_all(Seq::<(Seq<u8>, Seq<u8>)>::empty(), acc.insert(e.0, e.1)) == acc.insert(
            e.0,
            e.1,
        ));
        assert(insert_all(es, acc) == acc);
    } else {
        assert(es.push(e)[0] == es[0]);
        assert(es.push(e).skip(1) =~= es.skip(1).push(e));
        lemma_insert_all_snoc(es.skip(1), e, acc.insert(es[0].0, es[0].1));
        assert(insert_all(es.push(e), acc) == insert_all(es.skip(1).push(e), acc.insert(
            es[0].0,
            es[0].1,
        )));
        assert(insert_all(es, acc) == insert_all(es.skip(1), acc.insert(es[0].0, es[0].1)));
    }
}

/// Front-to-back insertion computes the same mapping as the collection
/// model `map_of`.
pub proof fn lemma_insert_all_is_map_of(es: Seq<(Seq<u8>, Seq<u8>)>)
    ensures
        insert_all(es, Map::<Seq<u8>, Seq<u8>>::empty()) == map_of(es),
    decreases es.len(),
{
    if es.len() > 0 {
        lemma_insert_all_is_map_of(es.drop_last());
        assert(es.drop_last().push(es.last()) =~= es);
        lemma_insert_all_snoc(es.drop_last(), es.last(), Map::empty());
    }
}

// ---------------------------------------------------------------------
// Scanning lemmas: the encoder's output contains no byte that the
// line-level scanners (comment stripping, trimming, separator search,
// line splitting) would trip over.
// ---------------------------------------------------------------------
proof fn lemma_comment_cut_plain_false(a: Seq<u8>, w: Seq<u8>)
    requires
        forall|i: int| 0 <= i < a.len() ==> #[trigger] a[i] != 0x23 && a[i] != 0x22,
    ensures
        comment_cut(a + w, false) == a.len() + comment_cut(w, false),
    decreases a.len(),
{
    if a.len() == 0 {
        assert(a + w =~= w);
    } else {
        let s = a + w;
        assert(s[0] == a[0]);
        assert(s.skip(1) =~= a.skip(1) + w);
        lemma_comment_cut_plain_false(a.skip(1), w);
    }
}

proof fn lemma_comment_cut_plain_true(a: Seq<u8>, w: Seq<u8>)
    requires
        forall|i: int| 0 <= i < a.len() ==> #[trigger] a[i] != 0x22 && a[i] != 0x5c,
    ensures
        comment_cut(a + w, true) == a.len() + comment_cut(w, true),
    decreases a.len(),
{
    if a.len() == 0 {
        assert(a + w =~= w);
    } else {
        let s = a + w;
        assert(s[0] == a[0]);
        assert(s.skip(1) =~= a.skip(1) + w);
        lemma_comment_cut_plain_true(a.skip(1), w);
    }
}

/// Escaped value bytes are scanned through without leaving the quoted
/// state and without starting a comment.
proof fn lemma_comment_cut_escaped(v: Seq<u8>, w: Seq<u8>)
    ensures
        comment_cut(escape_bytes(v) + w, true) == escape_bytes(v).len() + comment_cut(w, true),
    decreases v.len(),
{
    if v.len() == 0 {
        assert(escape_bytes(v) + w =~= w);
    } else {
        let b = v[0];
        let u = escape_byte(b);
        let rest = escape_bytes(v.skip(1)) + w;
        let s = escape_bytes(v) + w;
        assert(s =~= u + rest);
        lemma_comment_cut_escaped(v.skip(1), w);
        if b == 0x22 || b == 0x5c || b == 0x08 || b == 0x09 || b == 0x0a || b == 0x0c || b
            == 0x0d {
            // a two-byte escape: the backslash protects the second byte
            assert((u + rest)[0] == 0x5c);
            assert((u + rest).skip(2) =~= rest);
        } else if b < 0x20 {
            // \u00XX: backslash + u, then four plain hex bytes
            assert((u + rest)[0] == 0x5c);
            assert((u + rest).skip(2) =~= seq![0x30u8, 0x30u8, hex_digit(b / 16), hex_digit(
                b % 16,
            )] + rest);
            let h = seq![0x30u8, 0x30u8, hex_digit(b / 16), hex_digit(b % 16)];
            assert(forall|i: int| 0 <= i < h.len() ==> #[trigger] h[i] != 0x22 && h[i] != 0x5c);
            lemma_comment_cut_plain_true(h, rest);
        } else {
            assert((u + rest)[0] == b);
            assert((u + rest).skip(1) =~= rest);
        }
    }
}

proof fn lemma_find_byte_absent_prefix(a: Seq<u8>, w: Seq<u8>, c: u8)
    requires
        forall|i: int| 0 <= i < a.len() ==> #[trigger] a[i] != c,
    ensures
        find_byte(w, c) < 0 ==> find_byte(a + w, c) == -1,
        find_byte(w, c) >= 0 ==> find_byte(a + w, c) == a.len() + find_byte(w, c),
    decreases a.len(),
{
    if a.len() == 0 {
        assert(a + w =~= w);
    } else {
        let s = a + w;
        assert(s[0] == a[0]);
        assert(s.skip(1) =~= a.skip(1) + w);
        lemma_find_byte_absent_prefix(a.skip(1), w, c);
    }
}

/// No escaped byte is a newline, so an encoded line never splits early.
proof fn lemma_escape_bytes_no_newline(v: Seq<u8>)
    ensures
        forall|i: int| 0 <= i < escape_bytes(v).len() ==> #[trigger] escape_bytes(v)[i] != 0x0a,
    decreases v.len(),
{
    if v.len() > 0 {
        lemma_escape_bytes_no_newline(v.skip(1));
        let u = escape_byte(v[0]);
        assert(forall|i: int| 0 <= i < u.len() ==> #[trigger] u[i] != 0x0a);
        assert forall|i: int|
            0 <= i < escape_bytes(v).len() implies #[trigger] escape_bytes(v)[i] != 0x0a by {
            if i < u.len() {
                assert(escape_bytes(v)[i] == u[i]);
            } else {
                assert(escape_bytes(v)[i] == escape_bytes(v.skip(1))[i - u.len()]);
            }
        }
    }
}

proof fn lemma_trim_noop(s: Seq<u8>)
    requires
        s.len() > 0,
        !is_ws(s[0]),
        !is_ws(s[s.len() - 1]),
    ensures
        trim_bytes(s) == s,
{
    assert(trim_start_idx(s) == 0);
    assert(s.skip(0) =~= s);
    assert(s.last() == s[s.len() - 1]);
    assert(trim_end_idx(s) == s.len());
    assert(s.take(s.len() as int) =~= s);
}

proof fn lemma_trim_empty()
    ensures
        trim_bytes(Seq::<u8>::empty()) == Seq::<u8>::empty(),
{
    let e = Seq::<u8>::empty();
    assert(trim_start_idx(e) == 0);
    assert(e.skip(0) =~= e);
    assert(trim_end_idx(e) == 0);
    assert(e.take(0) =~= e);
}

// ---------------------------------------------------------------------
// The entry line parses back to its entry.
// ---------------------------------------------------------------------
proof fn lemma_parse_entry_line(k: Seq<u8>, v: Seq<u8>)
    requires
        key_wf(k),
        valid_utf8(k),
        valid_utf8(v),
    ensures
        parse_line(line_of(k, v)) == Ok::<Option<(Seq<u8>, Seq<u8>)>, DecodeError>(Some((k, v))),
{
    let line = line_of(k, v);
    let qv = quoted(v);
    let a1 = k + seq![0x3du8];
    assert(line =~= a1 + qv);
    // no comment is found anywhere on the line
    assert(forall|i: int| 0 <= i < a1.len() ==> #[trigger] a1[i] != 0x23 && a1[i] != 0x22);
    lemma_comment_cut_plain_false(a1, qv);
    assert(qv[0] == 0x22);
    assert(qv.skip(1) =~= escape_bytes(v) + seq![0x22u8]);
    lemma_comment_cut_escaped(v, seq![0x22u8]);
    assert(comment_cut(seq![0x22u8], true) == 1) by {
        assert(seq![0x22u8].skip(1) =~= Seq::<u8>::empty());
        assert(comment_cut(Seq::<u8>::empty(), false) == 0);
    }
    assert(comment_cut(qv, false) == qv.len() as int);
    assert(comment_cut(line, false) == line.len() as int);
    assert(strip_comment(line) =~= line);
    // trimming changes nothing: the line starts with the key and ends
    // with the closing quote
    assert(line[0] == k[0]);
    assert(line[line.len() - 1] == 0x22);
    lemma_trim_noop(line);
    assert(trim_bytes(strip_comment(line)) == line);
    // the first `=` stands right after the key
    assert(forall|i: int| 0 <= i < k.len() ==> #[trigger] k[i] != 0x3d);
    let w = seq![0x3du8] + qv;
    assert(line =~= k + w);
    assert(w[0] == 0x3d);
    assert(find_byte(w, 0x3d) == 0);
    lemma_find_byte_absent_prefix(k, w, 0x3d);
    let e = find_byte(line, 0x3d);
    assert(e == k.len() as int);
    // the key side trims to the key itself
    assert(line.take(e) =~= k);
    lemma_trim_noop(k);
    // the value side trims to the quoted token
    assert(line.skip(e + 1) =~= qv);
    assert(qv[qv.len() - 1] == 0x22);
    lemma_trim_noop(qv);
    // and the token unescapes back to the value
    assert(qv.subrange(1, qv.len() - 1) =~= escape_bytes(v));
    lemma_unescape_escape(v);
    assert(unescape_token(qv) == Some(v));
}

// ---------------------------------------------------------------------
// Splitting the encoded stream yields exactly the entry lines, plus one
// final blank line from the trailing newline.
// ---------------------------------------------------------------------
proof fn lemma_split_encode_step(k: Seq<u8>, v: Seq<u8>, w: Seq<u8>)
    requires
        key_wf(k),
    ensures
        split_lines(encode_entry(k, v) + w) == seq![line_of(k, v)] + split_lines(w),
{
    let line = line_of(k, v);
    let s = encode_entry(k, v) + w;
    assert(s =~= line + (seq![0x0au8] + w));
    lemma_escape_bytes_no_newline(v);
    assert forall|i: int| 0 <= i < line.len() implies #[trigger] line[i] != 0x0a by {
        if i < k.len() {
            assert(line[i] == k[i]);
        } else if i == k.len() {
            assert(line[i] == 0x3d);
        } else if i == k.len() + 1 {
            assert(line[i] == 0x22);
        } else if i < line.len() - 1 {
            assert(line[i] == escape_bytes(v)[i - k.len() - 2]);
        } else {
            assert(line[i] == 0x22);
        }
    }
    assert((seq![0x0au8] + w)[0] == 0x0a);
    assert(find_byte(seq![0x0au8] + w, 0x0a) == 0);
    lemma_find_byte_absent_prefix(line, seq![0x0au8] + w, 0x0a);
    let f = find_byte(s, 0x0a);
    assert(f == line.len() as int);
    assert(s.take(f) =~= line);
    assert(s.skip(f + 1) =~= w);
}

/// Decoding the encoded entries on top of any accumulator inserts them
/// all, front to back.
proof fn lemma_decode_encode_lines(entries: Seq<(Seq<u8>, Seq<u8>)>, acc: Map<Seq<u8>, Seq<u8>>)
    requires
        forall|i: int| 0 <= i < entries.len() ==> key_wf((#[trigger] entries[i]).0),
        forall|i: int|
            0 <= i < entries.len() ==> valid_utf8((#[trigger] entries[i]).0) && valid_utf8(
                entries[i].1,
            ),
    ensures
        decode_lines(split_lines(encode_spec(entries)), acc) == Ok::<
            Map<Seq<u8>, Seq<u8>>,
            DecodeError,
        >(insert_all(entries, acc)),
    decreases entries.len(),
{
    if entries.len() == 0 {
        let empty = Seq::<u8>::empty();
        assert(encode_spec(entries) =~= empty);
        assert(find_byte(empty, 0x0a) == -1);
        assert(split_lines(empty) == seq![empty]);
        assert(comment_cut(empty, false) == 0);
        assert(strip_comment(empty) =~= empty);
        lemma_trim_empty();
        assert(parse_line(empty) == Ok::<Option<(Seq<u8>, Seq<u8>)>, DecodeError>(None));
        assert(seq![empty][0] == empty);
        assert(seq![empty].skip(1) =~= Seq::<Seq<u8>>::empty());
        assert(decode_lines(Seq::<Seq<u8>>::empty(), acc) == Ok::<
            Map<Seq<u8>, Seq<u8>>,
            DecodeError,
        >(acc));
        assert(insert_all(entries, acc) == acc);
    } else {
        let k = entries[0].0;
        let v = entries[0].1;
        let rest = encode_spec(entries.skip(1));
        assert(encode_spec(entries) == encode_entry(k, v) + rest);
        lemma_split_encode_step(k, v, rest);
        let lines = split_lines(encode_spec(entries));
        assert(lines == seq![line_of(k, v)] + split_lines(rest));
        assert(lines[0] == line_of(k, v));
        assert(lines.skip(1) =~= split_lines(rest));
        lemma_parse_entry_line(k, v);
        lemma_decode_encode_lines(entries.skip(1), acc.insert(k, v));
        assert(decode_lines(lines, acc) == decode_lines(lines.skip(1), acc.insert(k, v)));
        assert(insert_all(entries, acc) == insert_all(entries.skip(1), acc.insert(k, v)));
    }
}

// ---------------------------------------------------------------------
// The laws.
// ---------------------------------------------------------------------
/// Round trip: decoding what `to_writer` emits for a collection yields
/// exactly that collection's mapping, for every collection whose keys
/// can stand raw on a line (see `key_wf`; a key such as "a=b" cannot).
pub proof fn lemma_decode_encode_roundtrip(s: &Secrets)
    requires
        forall|i: int| 0 <= i < s.entries().len() ==> key_wf((#[trigger] s.entries()[i]).0),
    ensures
        decode_spec(encode_spec(s.entries())) == Ok::<Map<Seq<u8>, Seq<u8>>, DecodeError>(s@),
{
    broadcast use encode_utf8_valid_utf8;

    let es = s.entries();
    assert forall|i: int|
        0 <= i < es.len() implies valid_utf8((#[trigger] es[i]).0) && valid_utf8(es[i].1) by {
        assert(es[i].0 == encode_utf8(s.content@[i].0@));
        assert(es[i].1 == encode_utf8(s.content@[i].1@));
    }
    lemma_decode_encode_lines(es, Map::empty());
    lemma_insert_all_is_map_of(es);
}

/// Keys strictly ascending throughout, as `Secrets::wf` keeps them.
pub open spec fn sorted_entries(es: Seq<(Seq<u8>, Seq<u8>)>) -> bool {
    forall|i: int, j: int|
        0 <= i < j < es.len() ==> lex_lt((#[trigger] es[i]).0, (#[trigger] es[j]).0)
}

/// Every entry's key is in the mapping.
proof fn lemma_map_of_contains_index(es: Seq<(Seq<u8>, Seq<u8>)>, i: int)
    requires
        0 <= i < es.len(),
    ensures
        map_of(es).contains_key(es[i].0),
    decreases es.len(),
{
    if i < es.len() - 1 {
        lemma_map_of_contains_index(es.drop_last(), i);
        assert(es.drop_last()[i] == es[i]);
    }
}

/// Every key of the mapping comes from some entry.
proof fn lemma_map_of_key_exists(es: Seq<(Seq<u8>, Seq<u8>)>, k: Seq<u8>)
    requires
        map_of(es).contains_key(k),
    ensures
        exists|i: int| 0 <= i < es.len() && (#[trigger] es[i]).0 == k,
    decreases es.len(),
{
    if es.len() == 0 {
        assert(false);
    } else if k == es.last().0 {
        assert(es[es.len() - 1].0 == k);
    } else {
        lemma_map_of_key_exists(es.drop_last(), k);
        let i = choose|i: int|
            0 <= i < es.drop_last().len() && (#[trigger] es.drop_last()[i]).0 == k;
        assert(es[i].0 == k);
    }
}

/// Two well-formed collections with the same mapping hold the same
/// entries in the same order, so their encodings are byte-identical:
/// the output is determined by the mapping alone, never by insertion
/// order.
pub proof fn lemma_sorted_entries_unique(x: Seq<(Seq<u8>, Seq<u8>)>, y: Seq<(Seq<u8>, Seq<u8>)>)
    requires
        sorted_entries(x),
        sorted_entries(y),
        map_of(x) == map_of(y),
    ensures
        x == y,
    decreases x.len(),
{
    if x.len() == 0 {
        if y.len() > 0 {
            lemma_map_of_contains_index(y, y.len() - 1);
            assert(false);
        }
        assert(x =~= y);
    } else {
        lemma_map_of_contains_index(x, x.len() - 1);
        if y.len() == 0 {
            assert(false);
        }
        lemma_map_of_contains_index(y, y.len() - 1);
        let ka = x.last().0;
        let kb = y.last().0;
        // each last key appears in the other sequence; sortedness makes
        // both the maximum, so they are equal
        lemma_map_of_key_exists(y, ka);
        lemma_map_of_key_exists(x, kb);
        let j = choose|j: int| 0 <= j < y.len() && (#[trigger] y[j]).0 == ka;
        let i = choose|i: int| 0 <= i < x.len() && (#[trigger] x[i]).0 == kb;
        if j < y.len() - 1 && i < x.len() - 1 {
            assert(lex_lt(ka, kb));
            assert(lex_lt(kb, ka));
            lemma_lex_lt_asymmetric(ka, kb);
            assert(false);
        }
        if j < y.len() - 1 && i == x.len() - 1 {
            assert(lex_lt(ka, kb) && ka == kb);
            lemma_lex_lt_irreflexive(ka);
            assert(false);
        }
        if j == y.len() - 1 && i < x.len() - 1 {
            assert(lex_lt(kb, ka) && ka == kb);
            lemma_lex_lt_irreflexive(ka);
            assert(false);
        }
        assert(ka == kb);
        // values at the last key agree
        assert(map_of(x)[ka] == x.last().1);
        assert(map_of(y)[kb] == y.last().1);
        assert(x.last() == y.last());
        // the last key does not occur earlier, so dropping it removes
        // exactly one binding on both sides
        assert forall|p: int| 0 <= p < x.drop_last().len() implies (#[trigger] x.drop_last()[p]).0
            != ka by {
            if x.drop_last()[p].0 == ka {
                assert(lex_lt(x[p].0, ka));
                lemma_lex_lt_irreflexive(ka);
            }
        }
        assert forall|p: int| 0 <= p < y.drop_last().len() implies (#[trigger] y.drop_last()[p]).0
            != kb by {
            if y.drop_last()[p].0 == kb {
                assert(lex_lt(y[p].0, kb));
                lemma_lex_lt_irreflexive(kb);
            }
        }
        if map_of(x.drop_last()).contains_key(ka) {
            lemma_map_of_key_exists(x.drop_last(), ka);
            assert(false);
        }
        if map_of(y.drop_last()).contains_key(kb) {
            lemma_map_of_key_exists(y.drop_last(), kb);
            assert(false);
        }
        assert(map_of(x.drop_last()) =~= map_of(x).remove(ka));
        assert(map_of(y.drop_last()) =~= map_of(y).remove(kb));
        assert(sorted_entries(x.drop_last()));
        assert(sorted_entries(y.drop_last()));
        lemma_sorted_entries_unique(x.drop_last(), y.drop_last());
        assert(x =~= x.drop_last().push(x.last()));
        assert(y =~= y.drop_last().push(y.last()));
    }
}

/// Output determinism: two well-formed collections holding the same
/// key-value pairs (whatever order they were built in) encode to
/// byte-identical output.
pub proof fn lemma_encode_deterministic(a: &Secrets, b: &Secrets)
    requires
        a.wf(),
        b.wf(),
        a@ == b@,
    ensures
        a.entries() == b.entries(),
        encode_spec(a.entries()) == encode_spec(b.entries()),
{
    assert(sorted_entries(a.entries()));
    assert(sorted_entries(b.entries()));
    lemma_sorted_entries_unique(a.entries(), b.entries());
}

} // verus!
