//! The persisted text format: one JSON document with a single top-level
//! field `projector`, a mapping keyed by directory-path strings whose
//! values are flat string-to-string mappings.
//!
//! The writer and the reader are this library's own logic. The writer
//! emits the document in a canonical form: no interstitial whitespace, `"`
//! and `\` escaped with a backslash, and control characters written as
//! `\u00` followed by two lowercase hex digits. The reader accepts exactly
//! the documents the writer emits — a read store always re-serializes,
//! character for character, to what was read — and rejects everything
//! else; a caller that wants the best-effort reading policy maps a
//! rejection to an empty store.

use vstd::prelude::*;

use crate::store::{keys_distinct, rows_wf, Data, Dir};
use crate::strings::{chars_to_string, str_eq, string_to_chars};

verus! {

/// The lowercase hex digit of `n`, for `0 <= n < 16`.
pub open spec fn hex_digit(n: int) -> char {
    if n == 0 { '0' } else if n == 1 { '1' } else if n == 2 { '2' } else if n == 3 { '3' }
    else if n == 4 { '4' } else if n == 5 { '5' } else if n == 6 { '6' } else if n == 7 { '7' }
    else if n == 8 { '8' } else if n == 9 { '9' } else if n == 10 { 'a' } else if n == 11 { 'b' }
    else if n == 12 { 'c' } else if n == 13 { 'd' } else if n == 14 { 'e' } else { 'f' }
}

/// How one character is written inside a string literal.
pub open spec fn esc_char(c: char) -> Seq<char> {
    if c == '"' {
        seq!['\\', '"']
    } else if c == '\\' {
        seq!['\\', '\\']
    } else if (c as u32) < 32 {
        seq!['\\', 'u', '0', '0', hex_digit(c as u32 as int / 16), hex_digit(c as u32 as int % 16)]
    } else {
        seq![c]
    }
}

/// How a whole string is written, between its quotes.
pub open spec fn esc(s: Seq<char>) -> Seq<char>
    decreases s.len(),
{
    if s.len() == 0 {
        Seq::empty()
    } else {
        esc_char(s[0]) + esc(s.skip(1))
    }
}

/// A quoted string literal.
pub open spec fn quoted(s: Seq<char>) -> Seq<char> {
    seq!['"'] + esc(s) + seq!['"']
}

/// One `"key":"value"` member.
pub open spec fn kv_json(kv: (Seq<char>, Seq<char>)) -> Seq<char> {
    quoted(kv.0) + seq![':'] + quoted(kv.1)
}

/// Comma-joined members of one directory's mapping.
pub open spec fn kvs_json(kvs: Seq<(Seq<char>, Seq<char>)>) -> Seq<char>
    decreases kvs.len(),
{
    if kvs.len() == 0 {
        Seq::empty()
    } else if kvs.len() == 1 {
        kv_json(kvs[0])
    } else {
        kv_json(kvs[0]) + seq![','] + kvs_json(kvs.skip(1))
    }
}

/// One `"path":{...}` member of the top-level mapping.
pub open spec fn row_json(r: (Seq<char>, Seq<(Seq<char>, Seq<char>)>)) -> Seq<char> {
    quoted(r.0) + seq![':', '{'] + kvs_json(r.1) + seq!['}']
}

/// Comma-joined members of the top-level mapping.
pub open spec fn rows_json(rows: Seq<(Seq<char>, Seq<(Seq<char>, Seq<char>)>)>) -> Seq<char>
    decreases rows.len(),
{
    if rows.len() == 0 {
        Seq::empty()
    } else if rows.len() == 1 {
        row_json(rows[0])
    } else {
        row_json(rows[0]) + seq![','] + rows_json(rows.skip(1))
    }
}

/// The opening `{"projector":{` of the document.
pub open spec fn json_header() -> Seq<char> {
    seq!['{', '"', 'p', 'r', 'o', 'j', 'e', 'c', 't', 'o', 'r', '"', ':', '{']
}

/// The whole document for a store's rows.
pub open spec fn json_of(rows: Seq<(Seq<char>, Seq<(Seq<char>, Seq<char>)>)>) -> Seq<char> {
    json_header() + rows_json(rows) + seq!['}', '}']
}

/// Escaping distributes over concatenation.
pub proof fn lemma_esc_concat(s1: Seq<char>, s2: Seq<char>)
    ensures
        esc(s1 + s2) == esc(s1) + esc(s2),
    decreases s1.len(),
{
    if s1.len() == 0 {
        assert(s1 + s2 =~= s2);
        assert(esc(s1) + esc(s2) =~= esc(s2));
    } else {
        lemma_esc_concat(s1.skip(1), s2);
        assert((s1 + s2).skip(1) =~= s1.skip(1) + s2);
        assert(esc(s1 + s2) =~= esc(s1) + esc(s2));
    }
}

/// `kvs_json` grows at the back by a comma and one member.
pub proof fn lemma_kvs_json_snoc(kvs: Seq<(Seq<char>, Seq<char>)>)
    requires
        kvs.len() >= 1,
    ensures
        kvs_json(kvs) == kvs_json(kvs.drop_last()) + (if kvs.len() == 1 {
            Seq::<char>::empty()
        } else {
            seq![',']
        }) + kv_json(kvs.last()),
    decreases kvs.len(),
{
    if kvs.len() == 1 {
        assert(kvs_json(kvs.drop_last()) + Seq::<char>::empty() + kv_json(kvs.last())
            =~= kv_json(kvs[0]));
    } else {
        lemma_kvs_json_snoc(kvs.skip(1));
        assert(kvs.skip(1).drop_last() =~= kvs.drop_last().skip(1));
        assert(kvs.skip(1).last() == kvs.last());
        assert(kvs_json(kvs) =~= kvs_json(kvs.drop_last()) + seq![','] + kv_json(kvs.last()));
    }
}

/// `rows_json` grows at the back by a comma and one member.
pub proof fn lemma_rows_json_snoc(rows: Seq<(Seq<char>, Seq<(Seq<char>, Seq<char>)>)>)
    requires
        rows.len() >= 1,
    ensures
        rows_json(rows) == rows_json(rows.drop_last()) + (if rows.len() == 1 {
            Seq::<char>::empty()
        } else {
            seq![',']
        }) + row_json(rows.last()),
    decreases rows.len(),
{
    if rows.len() == 1 {
        assert(rows_json(rows.drop_last()) + Seq::<char>::empty() + row_json(rows.last())
            =~= row_json(rows[0]));
    } else {
        lemma_rows_json_snoc(rows.skip(1));
        assert(rows.skip(1).drop_last() =~= rows.drop_last().skip(1));
        assert(rows.skip(1).last() == rows.last());
        assert(rows_json(rows) =~= rows_json(rows.drop_last()) + seq![','] + row_json(rows.last()));
    }
}

/// The lowercase hex digit of `n`, for `n < 16`.
fn hex_digit_exec(n: u8) -> (c: char)
    requires
        n < 16,
    ensures
        c == hex_digit(n as int),
{
    match n {
        0 => '0',
        1 => '1',
        2 => '2',
        3 => '3',
        4 => '4',
        5 => '5',
        6 => '6',
        7 => '7',
        8 => '8',
        9 => '9',
        10 => 'a',
        11 => 'b',
        12 => 'c',
        13 => 'd',
        14 => 'e',
        _ => 'f',
    }
}

/// Appends the escaped form of `s` to `buf`.
fn push_escaped(buf: &mut Vec<char>, s: &str)
    ensures
        final(buf)@ == old(buf)@ + esc(s@),
{
    let n = s.unicode_len();
    let mut i: usize = 0;
    while i < n
        invariant
            0 <= i <= n,
            n == s@.len(),
            buf@ == old(buf)@ + esc(s@.take(i as int)),
        decreases n - i,
    {
        let c = s.get_char(i);
        let cu = c as u32;
        if c == '"' {
            buf.push('\\');
            buf.push('"');
        } else if c == '\\' {
            buf.push('\\');
            buf.push('\\');
        } else if cu < 32 {
            buf.push('\\');
            buf.push('u');
            buf.push('0');
            buf.push('0');
            buf.push(hex_digit_exec((cu / 16) as u8));
            buf.push(hex_digit_exec((cu % 16) as u8));
        } else {
            buf.push(c);
        }
        i = i + 1;
        proof {
            lemma_esc_concat(s@.take(i - 1), seq![s@[i - 1]]);
            assert(s@.take(i as int) =~= s@.take(i - 1) + seq![s@[i - 1]]);
            assert(seq![s@[i - 1]].skip(1) =~= Seq::<char>::empty());
            assert(esc(Seq::<char>::empty()) =~= Seq::<char>::empty());
            assert(esc(seq![s@[i - 1]]) =~= esc_char(s@[i - 1]));
            assert(buf@ =~= old(buf)@ + esc(s@.take(i as int)));
        }
    }
    proof {
        assert(s@.take(n as int) =~= s@);
    }
}

/// Appends `"s"` to `buf`.
fn push_quoted(buf: &mut Vec<char>, s: &str)
    ensures
        final(buf)@ == old(buf)@ + quoted(s@),
{
    buf.push('"');
    push_escaped(buf, s);
    buf.push('"');
    proof {
        assert(buf@ =~= old(buf)@ + quoted(s@));
    }
}

/// Writes the whole document for a store.
pub fn to_json(data: &Data) -> (r: String)
    ensures
        r@ == json_of(data.rows()),
{
    let mut buf: Vec<char> = Vec::new();
    buf.push('{');
    buf.push('"');
    buf.push('p');
    buf.push('r');
    buf.push('o');
    buf.push('j');
    buf.push('e');
    buf.push('c');
    buf.push('t');
    buf.push('o');
    buf.push('r');
    buf.push('"');
    buf.push(':');
    buf.push('{');
    proof {
        assert(buf@ =~= json_header());
    }
    let nrows = data.projector.len();
    let mut i: usize = 0;
    while i < nrows
        invariant
            0 <= i <= nrows,
            nrows == data.projector@.len(),
            buf@ == json_header() + rows_json(data.rows().take(i as int)),
        decreases nrows - i,
    {
        if i > 0 {
            buf.push(',');
        }
        let row = &data.projector[i];
        push_quoted(&mut buf, row.path.as_str());
        buf.push(':');
        buf.push('{');
        let nkvs = row.dir.entries.len();
        let ghost kvs = row.dir.kvs();
        let ghost mid = buf@;
        let mut j: usize = 0;
        while j < nkvs
            invariant
                0 <= j <= nkvs,
                nkvs == row.dir.entries@.len(),
                kvs == row.dir.kvs(),
                buf@ == mid + kvs_json(kvs.take(j as int)),
            decreases nkvs - j,
        {
            if j > 0 {
                buf.push(',');
            }
            let e = &row.dir.entries[j];
            push_quoted(&mut buf, e.key.as_str());
            buf.push(':');
            push_quoted(&mut buf, e.val.as_str());
            j = j + 1;
            proof {
                lemma_kvs_json_snoc(kvs.take(j as int));
                assert(kvs.take(j as int).drop_last() =~= kvs.take(j - 1));
                assert(kvs.take(j as int).last() == kvs[j - 1]);
                assert(kv_json(kvs[j - 1]) =~= quoted(row.dir.entries@[j - 1].key@)
                    + seq![':'] + quoted(row.dir.entries@[j - 1].val@));
                assert(buf@ =~= mid + kvs_json(kvs.take(j as int)));
            }
        }
        buf.push('}');
        i = i + 1;
        proof {
            assert(kvs.take(nkvs as int) =~= kvs);
            lemma_rows_json_snoc(data.rows().take(i as int));
            assert(data.rows().take(i as int).drop_last() =~= data.rows().take(i - 1));
            assert(data.rows().take(i as int).last() == data.rows()[i - 1]);
            assert(data.rows()[i - 1].0 == data.projector@[i - 1].path@);
            assert(data.rows()[i - 1].1 == kvs);
            assert(row_json(data.rows()[i - 1]) =~= quoted(data.projector@[i - 1].path@)
                + seq![':', '{'] + kvs_json(kvs) + seq!['}']);
            assert(buf@ =~= json_header() + rows_json(data.rows().take(i as int)));
        }
    }
    buf.push('}');
    buf.push('}');
    proof {
        assert(data.rows().take(nrows as int) =~= data.rows());
        assert(buf@ =~= json_of(data.rows()));
    }
    chars_to_string(&buf)
}

/// The value of a hex digit, for the lowercase digits the writer emits.
fn hex_val(c: char) -> (r: Option<u8>)
    ensures
        (match r {
            Some(n) => n < 16 && hex_digit(n as int) == c,
            None => forall|m: int| 0 <= m < 16 ==> hex_digit(m) != c,
        }),
{
    match c {
        '0' => Some(0),
        '1' => Some(1),
        '2' => Some(2),
        '3' => Some(3),
        '4' => Some(4),
        '5' => Some(5),
        '6' => Some(6),
        '7' => Some(7),
        '8' => Some(8),
        '9' => Some(9),
        'a' => Some(10),
        'b' => Some(11),
        'c' => Some(12),
        'd' => Some(13),
        'e' => Some(14),
        'f' => Some(15),
        _ => None,
    }
}

/// The text of a quoted literal holding `x`, followed by `rest`.
spec fn str_image(x: Seq<char>, rest: Seq<char>) -> Seq<char> {
    seq!['"'] + esc(x) + seq!['"'] + rest
}

/// A character is determined by its code point.
proof fn lemma_char_by_code(c1: char, c2: char)
    requires
        c1 as u32 == c2 as u32,
    ensures
        c1 == c2,
{
}

/// Splits the unread part of a literal's text at the next character to
/// unescape: `t` is what remains of `str_image(x, rest)` once the opening
/// quote and the escapes of the first `n` characters are consumed.
proof fn lemma_image_suffix(x: Seq<char>, rest: Seq<char>, n: int, t: Seq<char>)
    requires
        0 <= n <= x.len(),
        t == esc(x.skip(n)) + seq!['"'] + rest,
    ensures
        n == x.len() ==> t == seq!['"'] + rest && t.len() == 1 + rest.len(),
        n < x.len() ==> t == esc_char(x[n]) + (esc(x.skip(n + 1)) + seq!['"'] + rest)
            && t.len() > esc_char(x[n]).len() && t[0] == esc_char(x[n])[0] && t[0] != '"',
{
    if n == x.len() {
        assert(x.skip(n) =~= Seq::<char>::empty());
        assert(t =~= seq!['"'] + rest);
    } else {
        assert(x.skip(n)[0] == x[n]);
        assert(x.skip(n).skip(1) =~= x.skip(n + 1));
        assert(t =~= esc_char(x[n]) + (esc(x.skip(n + 1)) + seq!['"'] + rest));
        lemma_esc_char_head(x[n]);
    }
}

/// Reads a quoted string literal starting at `i`; on success hands back
/// the unescaped text and the position just past the closing quote.
///
/// The contract is two-sided on the writer's images: wherever the text at
/// `i` opens with the written form of some string, that string is returned
/// with the position of what follows it, and a rejection means no written
/// form opens there.
fn parse_string_at(s: &Vec<char>, i: usize) -> (r: Option<(String, usize)>)
    requires
        i <= s@.len(),
    ensures
        (match r {
            Some(p) => i < p.1 <= s@.len() && (forall|x: Seq<char>, rest: Seq<char>|
                s@.skip(i as int) == #[trigger] str_image(x, rest)
                    ==> p.0@ == x && s@.skip(p.1 as int) == rest),
            None => forall|x: Seq<char>, rest: Seq<char>|
                s@.skip(i as int) != #[trigger] str_image(x, rest),
        }),
{
    if i >= s.len() || s[i] != '"' {
        proof {
            assert forall|x: Seq<char>, rest: Seq<char>|
                s@.skip(i as int) != #[trigger] str_image(x, rest) by {
                if s@.skip(i as int) == str_image(x, rest) {
                    assert(str_image(x, rest).len() == 2 + esc(x).len() + rest.len());
                    assert(s@.skip(i as int).len() == s@.len() - i);
                    assert(i < s@.len());
                    assert(str_image(x, rest)[0] == '"');
                    assert(s@.skip(i as int)[0] == s@[i as int]);
                    assert(s@[i as int] == '"');
                }
            }
        }
        return None;
    }
    let mut pos: usize = i + 1;
    let mut out: Vec<char> = Vec::new();
    proof {
        assert forall|x: Seq<char>, rest: Seq<char>|
            s@.skip(i as int) == #[trigger] str_image(x, rest)
                implies out@.len() <= x.len() && out@ == x.take(out@.len() as int)
                    && s@.skip(pos as int) == esc(x.skip(out@.len() as int)) + seq!['"']
                        + rest by {
            assert(s@.skip(pos as int) =~= s@.skip(i as int).skip(1));
            assert(str_image(x, rest).skip(1) =~= esc(x) + seq!['"'] + rest);
            assert(out@ =~= x.take(0));
            assert(x.skip(0) =~= x);
        }
    }
    loop
        invariant
            i < pos <= s@.len(),
            forall|x: Seq<char>, rest: Seq<char>|
                s@.skip(i as int) == #[trigger] str_image(x, rest)
                    ==> out@.len() <= x.len() && out@ == x.take(out@.len() as int)
                        && s@.skip(pos as int) == esc(x.skip(out@.len() as int)) + seq!['"']
                            + rest,
        decreases s@.len() - pos,
    {
        let ghost pos0 = pos as int;
        let ghost out0 = out@;
        if pos >= s.len() {
            proof {
                assert forall|x: Seq<char>, rest: Seq<char>|
                    s@.skip(i as int) != #[trigger] str_image(x, rest) by {
                    if s@.skip(i as int) == str_image(x, rest) {
                        lemma_image_suffix(x, rest, out0.len() as int, s@.skip(pos0));
                    }
                }
            }
            return None;
        }
        let c = s[pos];
        if c == '"' {
            let res = chars_to_string(&out);
            proof {
                assert forall|x: Seq<char>, rest: Seq<char>|
                    s@.skip(i as int) == #[trigger] str_image(x, rest)
                        implies res@ == x && s@.skip(pos0 + 1) == rest by {
                    let n = out0.len() as int;
                    let t = s@.skip(pos0);
                    lemma_image_suffix(x, rest, n, t);
                    assert(t[0] == c);
                    assert(n == x.len());
                    assert(x.take(n) =~= x);
                    assert(rest =~= t.skip(1));
                    assert(s@.skip(pos0 + 1) =~= t.skip(1));
                }
            }
            return Some((res, pos + 1));
        }
        if c != '\\' {
            out.push(c);
            pos = pos + 1;
            proof {
                assert forall|x: Seq<char>, rest: Seq<char>|
                    s@.skip(i as int) == #[trigger] str_image(x, rest)
                        implies out@.len() <= x.len() && out@ == x.take(out@.len() as int)
                            && s@.skip(pos as int) == esc(x.skip(out@.len() as int))
                                + seq!['"'] + rest by {
                    let n = out0.len() as int;
                    let t = s@.skip(pos0);
                    lemma_image_suffix(x, rest, n, t);
                    assert(t[0] == c);
                    assert(n < x.len());
                    assert(esc_char(x[n])[0] == c);
                    assert(x[n] == c);
                    assert(esc_char(x[n]) =~= seq![c]);
                    assert(out@ =~= out0.push(c));
                    assert(x.take(n + 1) =~= x.take(n).push(x[n]));
                    assert(t.skip(1) =~= esc(x.skip(n + 1)) + seq!['"'] + rest);
                    assert(s@.skip(pos as int) =~= t.skip(1));
                }
            }
        } else {
            if pos + 1 >= s.len() {
                proof {
                    assert forall|x: Seq<char>, rest: Seq<char>|
                        s@.skip(i as int) != #[trigger] str_image(x, rest) by {
                        if s@.skip(i as int) == str_image(x, rest) {
                            let n = out0.len() as int;
                            let t = s@.skip(pos0);
                            lemma_image_suffix(x, rest, n, t);
                            assert(t[0] == c);
                            assert(n < x.len());
                            assert(esc_char(x[n])[0] == '\\');
                            lemma_esc_char_head(x[n]);
                            assert(t.len() > 2);
                        }
                    }
                }
                return None;
            }
            let e = s[pos + 1];
            match e {
                '"' | '\\' => {
                    out.push(e);
                    pos = pos + 2;
                    proof {
                        assert forall|x: Seq<char>, rest: Seq<char>|
                            s@.skip(i as int) == #[trigger] str_image(x, rest)
                                implies out@.len() <= x.len()
                                    && out@ == x.take(out@.len() as int)
                                    && s@.skip(pos as int) == esc(x.skip(out@.len() as int))
                                        + seq!['"'] + rest by {
                            let n = out0.len() as int;
                            let t = s@.skip(pos0);
                            lemma_image_suffix(x, rest, n, t);
                            assert(t[0] == c);
                            assert(n < x.len());
                            let ec = esc_char(x[n]);
                            assert(ec[0] == '\\');
                            lemma_esc_char_head(x[n]);
                            assert(t[1] == ec[1]);
                            assert(t[1] == e);
                            assert(x[n] == e);
                            assert(ec =~= seq!['\\', e]);
                            assert(out@ =~= out0.push(e));
                            assert(x.take(n + 1) =~= x.take(n).push(x[n]));
                            assert(t.skip(2) =~= esc(x.skip(n + 1)) + seq!['"'] + rest);
                            assert(s@.skip(pos as int) =~= t.skip(2));
                        }
                    }
                },
                'u' => {
                    if s.len() - pos < 6 {
                        proof {
                            assert forall|x: Seq<char>, rest: Seq<char>|
                                s@.skip(i as int) != #[trigger] str_image(x, rest) by {
                                if s@.skip(i as int) == str_image(x, rest) {
                                    let n = out0.len() as int;
                                    let t = s@.skip(pos0);
                                    lemma_image_suffix(x, rest, n, t);
                                    assert(t[0] == c);
                                    assert(n < x.len());
                                    let ec = esc_char(x[n]);
                                    assert(ec[0] == '\\');
                                    lemma_esc_char_head(x[n]);
                                    assert(t[1] == ec[1] && t[1] == e);
                                    assert((x[n] as u32) < 32);
                                    assert(ec.len() == 6);
                                    assert(t.len() > 6);
                                }
                            }
                        }
                        return None;
                    }
                    let d2 = s[pos + 2];
                    let d3 = s[pos + 3];
                    let h4 = hex_val(s[pos + 4]);
                    let h5 = hex_val(s[pos + 5]);
                    if d2 != '0' || d3 != '0' || h4.is_none() || h5.is_none() {
                        proof {
                            assert forall|x: Seq<char>, rest: Seq<char>|
                                s@.skip(i as int) != #[trigger] str_image(x, rest) by {
                                if s@.skip(i as int) == str_image(x, rest) {
                                    let n = out0.len() as int;
                                    let t = s@.skip(pos0);
                                    lemma_image_suffix(x, rest, n, t);
                                    assert(t[0] == c);
                                    assert(n < x.len());
                                    let ec = esc_char(x[n]);
                                    assert(ec[0] == '\\');
                                    lemma_esc_char_head(x[n]);
                                    assert(t[1] == ec[1] && t[1] == e);
                                    assert((x[n] as u32) < 32);
                                    let a = x[n] as u32 as int;
                                    assert(t[2] == ec[2] && t[3] == ec[3]);
                                    assert(t[4] == ec[4] && t[5] == ec[5]);
                                    assert(t[2] == '0' && t[3] == '0');
                                    assert(t[4] == hex_digit(a / 16));
                                    assert(t[5] == hex_digit(a % 16));
                                    assert(0 <= a / 16 < 16);
                                    assert(0 <= a % 16 < 16);
                                }
                            }
                        }
                        return None;
                    }
                    let hi = h4.unwrap();
                    let lo = h5.unwrap();
                    let code: u8 = 16 * hi + lo;
                    out.push(code as char);
                    pos = pos + 6;
                    proof {
                        assert forall|x: Seq<char>, rest: Seq<char>|
                            s@.skip(i as int) == #[trigger] str_image(x, rest)
                                implies out@.len() <= x.len()
                                    && out@ == x.take(out@.len() as int)
                                    && s@.skip(pos as int) == esc(x.skip(out@.len() as int))
                                        + seq!['"'] + rest by {
                            let n = out0.len() as int;
                            let t = s@.skip(pos0);
                            lemma_image_suffix(x, rest, n, t);
                            assert(t[0] == c);
                            assert(n < x.len());
                            let ec = esc_char(x[n]);
                            assert(ec[0] == '\\');
                            lemma_esc_char_head(x[n]);
                            assert(t[1] == ec[1] && t[1] == e);
                            assert((x[n] as u32) < 32);
                            let a = x[n] as u32 as int;
                            assert(t[4] == ec[4] && t[5] == ec[5]);
                            assert(t[4] == hex_digit(a / 16));
                            assert(t[5] == hex_digit(a % 16));
                            assert(hex_digit(hi as int) == t[4]);
                            assert(hex_digit(lo as int) == t[5]);
                            assert(0 <= a / 16 < 16 && 0 <= a % 16 < 16);
                            assert(hi as int == a / 16 && lo as int == a % 16);
                            assert(code as int == a);
                            assert((code as char) as u32 == code as u32);
                            assert((code as char) as u32 == x[n] as u32);
                            lemma_char_by_code(code as char, x[n]);
                            assert(ec.len() == 6);
                            assert(out@ =~= out0.push(code as char));
                            assert(x.take(n + 1) =~= x.take(n).push(x[n]));
                            assert(t.skip(6) =~= esc(x.skip(n + 1)) + seq!['"'] + rest);
                            assert(s@.skip(pos as int) =~= t.skip(6));
                        }
                    }
                },
                _ => {
                    proof {
                        assert forall|x: Seq<char>, rest: Seq<char>|
                            s@.skip(i as int) != #[trigger] str_image(x, rest) by {
                            if s@.skip(i as int) == str_image(x, rest) {
                                let n = out0.len() as int;
                                let t = s@.skip(pos0);
                                lemma_image_suffix(x, rest, n, t);
                                assert(t[0] == c);
                                assert(n < x.len());
                                let ec = esc_char(x[n]);
                                assert(ec[0] == '\\');
                                lemma_esc_char_head(x[n]);
                                assert(t[1] == ec[1] && t[1] == e);
                                assert(ec[1] == '"' || ec[1] == '\\' || ec[1] == 'u');
                            }
                        }
                    }
                    return None;
                },
            }
        }
    }
}

/// The text of a directory object holding `kvs`, followed by `rest`.
spec fn dir_image(kvs: Seq<(Seq<char>, Seq<char>)>, rest: Seq<char>) -> Seq<char> {
    seq!['{'] + kvs_json(kvs) + seq!['}'] + rest
}

/// A non-empty member list's text opens with a quote.
proof fn lemma_kvs_json_head(kvs: Seq<(Seq<char>, Seq<char>)>)
    requires
        kvs.len() > 0,
    ensures
        kvs_json(kvs).len() >= 1,
        kvs_json(kvs)[0] == '"',
{
    assert(kv_json(kvs[0])[0] == '"');
}

/// Splits the unread part of a directory object's text at its next member:
/// `t` is what remains once the members before `m` and their separators
/// are consumed.
proof fn lemma_kvs_mid(
    kvs: Seq<(Seq<char>, Seq<char>)>,
    rest: Seq<char>,
    m: int,
    t: Seq<char>,
)
    requires
        0 <= m < kvs.len(),
        t == kvs_json(kvs.skip(m)) + seq!['}'] + rest,
    ensures
        ({
            let rest2 = (if m + 1 == kvs.len() {
                Seq::<char>::empty()
            } else {
                seq![','] + kvs_json(kvs.skip(m + 1))
            }) + seq!['}'] + rest;
            t == str_image(kvs[m].0, seq![':'] + str_image(kvs[m].1, rest2))
        }),
{
    let y = kvs.skip(m);
    assert(y[0] == kvs[m]);
    assert(y.skip(1) =~= kvs.skip(m + 1));
    let rest2 = (if m + 1 == kvs.len() {
        Seq::<char>::empty()
    } else {
        seq![','] + kvs_json(kvs.skip(m + 1))
    }) + seq!['}'] + rest;
    if y.len() == 1 {
        assert(t =~= str_image(kvs[m].0, seq![':'] + str_image(kvs[m].1, rest2)));
    } else {
        assert(t =~= str_image(kvs[m].0, seq![':'] + str_image(kvs[m].1, rest2)));
    }
}

/// Reads one directory object `{...}` starting at `i`; on success hands
/// back the directory's mapping and the position just past its `}`.
///
/// Two-sided on the writer's images with pairwise-distinct keys: wherever
/// the text at `i` opens with the written form of such a member list, that
/// list is returned, and a rejection means no such written form opens
/// there.
#[verifier::rlimit(100)]
#[verifier::spinoff_prover]
fn parse_dir_at(s: &Vec<char>, i: usize) -> (r: Option<(Dir, usize)>)
    requires
        i <= s@.len(),
    ensures
        (match r {
            Some(p) => i < p.1 <= s@.len() && p.0.wf()
                && (forall|kvs: Seq<(Seq<char>, Seq<char>)>, rest: Seq<char>|
                    keys_distinct(kvs) && s@.skip(i as int) == #[trigger] dir_image(kvs, rest)
                        ==> p.0.kvs() == kvs && s@.skip(p.1 as int) == rest),
            None => forall|kvs: Seq<(Seq<char>, Seq<char>)>, rest: Seq<char>|
                keys_distinct(kvs) ==> s@.skip(i as int) != #[trigger] dir_image(kvs, rest),
        }),
{
    if i >= s.len() || s[i] != '{' {
        proof {
            assert forall|kvs: Seq<(Seq<char>, Seq<char>)>, rest: Seq<char>|
                keys_distinct(kvs) implies s@.skip(i as int) != #[trigger] dir_image(kvs, rest) by {
                if s@.skip(i as int) == dir_image(kvs, rest) {
                    assert(dir_image(kvs, rest)[0] == '{');
                    assert(s@.skip(i as int)[0] == s@[i as int]);
                }
            }
        }
        return None;
    }
    let mut pos: usize = i + 1;
    let mut dir = Dir::new();
    if pos < s.len() && s[pos] == '}' {
        proof {
            assert forall|kvs: Seq<(Seq<char>, Seq<char>)>, rest: Seq<char>|
                keys_distinct(kvs) && s@.skip(i as int) == #[trigger] dir_image(kvs, rest)
                    implies dir.kvs() == kvs && s@.skip(pos as int + 1) == rest by {
                let t = s@.skip(pos as int);
                assert(t =~= s@.skip(i as int).skip(1));
                assert(dir_image(kvs, rest).skip(1) =~= kvs_json(kvs) + seq!['}'] + rest);
                if kvs.len() > 0 {
                    lemma_kvs_json_head(kvs);
                    assert(t[0] == '}');
                    assert(false);
                }
                assert(dir.kvs() =~= kvs);
                assert(t =~= seq!['}'] + rest);
                assert(rest =~= t.skip(1));
                assert(s@.skip(pos as int + 1) =~= t.skip(1));
            }
        }
        return Some((dir, pos + 1));
    }
    proof {
        assert forall|kvs: Seq<(Seq<char>, Seq<char>)>, rest: Seq<char>|
            keys_distinct(kvs) && s@.skip(i as int) == #[trigger] dir_image(kvs, rest)
                implies dir.kvs().len() < kvs.len()
                    && dir.kvs() == kvs.take(dir.kvs().len() as int)
                    && s@.skip(pos as int) == kvs_json(kvs.skip(dir.kvs().len() as int))
                        + seq!['}'] + rest by {
            let t = s@.skip(pos as int);
            assert(t =~= s@.skip(i as int).skip(1));
            assert(dir_image(kvs, rest).skip(1) =~= kvs_json(kvs) + seq!['}'] + rest);
            if kvs.len() == 0 {
                assert(t[0] == '}');
                assert(t[0] == s@[pos as int]);
                assert(false);
            }
            assert(dir.kvs() =~= kvs.take(0));
            assert(kvs.skip(0) =~= kvs);
        }
    }
    loop
        invariant
            i < pos <= s@.len(),
            dir.wf(),
            forall|kvs: Seq<(Seq<char>, Seq<char>)>, rest: Seq<char>|
                keys_distinct(kvs) && s@.skip(i as int) == #[trigger] dir_image(kvs, rest)
                    ==> dir.kvs().len() < kvs.len()
                        && dir.kvs() == kvs.take(dir.kvs().len() as int)
                        && s@.skip(pos as int) == kvs_json(kvs.skip(dir.kvs().len() as int))
                            + seq!['}'] + rest,
        decreases s@.len() - pos,
    {
        let ghost pos0 = pos as int;
        let ghost dir0 = dir.kvs();
        let (key, p1) = match parse_string_at(s, pos) {
            Some(kp) => kp,
            None => {
                proof {
                    assert forall|kvs: Seq<(Seq<char>, Seq<char>)>, rest: Seq<char>|
                        keys_distinct(kvs)
                            implies s@.skip(i as int) != #[trigger] dir_image(kvs, rest) by {
                        if s@.skip(i as int) == dir_image(kvs, rest) {
                            lemma_kvs_mid(kvs, rest, dir0.len() as int, s@.skip(pos0));
                        }
                    }
                }
                return None;
            },
        };
        if p1 >= s.len() || s[p1] != ':' {
            proof {
                assert forall|kvs: Seq<(Seq<char>, Seq<char>)>, rest: Seq<char>|
                    keys_distinct(kvs)
                        implies s@.skip(i as int) != #[trigger] dir_image(kvs, rest) by {
                    if s@.skip(i as int) == dir_image(kvs, rest) {
                        lemma_kvs_mid(kvs, rest, dir0.len() as int, s@.skip(pos0));
                        assert(s@.skip(p1 as int)[0] == ':');
                    }
                }
            }
            return None;
        }
        let (val, p2) = match parse_string_at(s, p1 + 1) {
            Some(vp) => vp,
            None => {
                proof {
                    assert forall|kvs: Seq<(Seq<char>, Seq<char>)>, rest: Seq<char>|
                        keys_distinct(kvs)
                            implies s@.skip(i as int) != #[trigger] dir_image(kvs, rest) by {
                        if s@.skip(i as int) == dir_image(kvs, rest) {
                            let m = dir0.len() as int;
                            lemma_kvs_mid(kvs, rest, m, s@.skip(pos0));
                            let rest2 = (if m + 1 == kvs.len() {
                                Seq::<char>::empty()
                            } else {
                                seq![','] + kvs_json(kvs.skip(m + 1))
                            }) + seq!['}'] + rest;
                            assert(s@.skip(p1 as int) == seq![':'] + str_image(kvs[m].1, rest2));
                            assert(s@.skip(p1 as int + 1) =~= s@.skip(p1 as int).skip(1));
                            assert((seq![':'] + str_image(kvs[m].1, rest2)).skip(1)
                                =~= str_image(kvs[m].1, rest2));
                        }
                    }
                }
                return None;
            },
        };
        let ghost k0 = key@;
        let ghost v0 = val@;
        dir.upsert(key, val);
        proof {
            assert forall|kvs: Seq<(Seq<char>, Seq<char>)>, rest: Seq<char>|
                keys_distinct(kvs) && s@.skip(i as int) == #[trigger] dir_image(kvs, rest)
                    implies dir.kvs() == kvs.take(dir0.len() as int + 1)
                        && s@.skip(p2 as int) == (if dir0.len() as int + 1 == kvs.len() {
                            Seq::<char>::empty()
                        } else {
                            seq![','] + kvs_json(kvs.skip(dir0.len() as int + 1))
                        }) + seq!['}'] + rest by {
                let m = dir0.len() as int;
                lemma_kvs_mid(kvs, rest, m, s@.skip(pos0));
                let rest2 = (if m + 1 == kvs.len() {
                    Seq::<char>::empty()
                } else {
                    seq![','] + kvs_json(kvs.skip(m + 1))
                }) + seq!['}'] + rest;
                assert(s@.skip(p1 as int) == seq![':'] + str_image(kvs[m].1, rest2));
                assert(s@.skip(p1 as int + 1) =~= s@.skip(p1 as int).skip(1));
                assert((seq![':'] + str_image(kvs[m].1, rest2)).skip(1)
                    =~= str_image(kvs[m].1, rest2));
                assert(k0 == kvs[m].0 && v0 == kvs[m].1);
                assert(s@.skip(p2 as int) == rest2);
                assert forall|j: int| 0 <= j < dir0.len()
                    implies (#[trigger] dir0[j]).0 != k0 by {
                    assert(dir0[j] == kvs[j]);
                }
                assert(dir.kvs() == dir0.push((k0, v0)));
                assert(kvs.take(m + 1) =~= kvs.take(m).push(kvs[m]));
            }
        }
        if p2 < s.len() && s[p2] == ',' {
            pos = p2 + 1;
            proof {
                assert forall|kvs: Seq<(Seq<char>, Seq<char>)>, rest: Seq<char>|
                    keys_distinct(kvs) && s@.skip(i as int) == #[trigger] dir_image(kvs, rest)
                        implies dir.kvs().len() < kvs.len()
                            && dir.kvs() == kvs.take(dir.kvs().len() as int)
                            && s@.skip(pos as int) == kvs_json(kvs.skip(dir.kvs().len() as int))
                                + seq!['}'] + rest by {
                    let m = dir0.len() as int;
                    if m + 1 == kvs.len() {
                        assert(s@.skip(p2 as int)[0] == '}');
                        assert(false);
                    }
                    assert(s@.skip(pos as int) =~= s@.skip(p2 as int).skip(1));
                    assert((seq![','] + kvs_json(kvs.skip(m + 1)) + seq!['}'] + rest).skip(1)
                        =~= kvs_json(kvs.skip(m + 1)) + seq!['}'] + rest);
                }
            }
        } else if p2 < s.len() && s[p2] == '}' {
            proof {
                assert forall|kvs: Seq<(Seq<char>, Seq<char>)>, rest: Seq<char>|
                    keys_distinct(kvs) && s@.skip(i as int) == #[trigger] dir_image(kvs, rest)
                        implies dir.kvs() == kvs && s@.skip(p2 as int + 1) == rest by {
                    let m = dir0.len() as int;
                    if m + 1 < kvs.len() {
                        assert(s@.skip(p2 as int)[0] == ',');
                        assert(false);
                    }
                    assert(kvs.take(m + 1) =~= kvs);
                    assert(s@.skip(p2 as int) =~= seq!['}'] + rest);
                    assert(rest =~= s@.skip(p2 as int).skip(1));
                    assert(s@.skip(p2 as int + 1) =~= s@.skip(p2 as int).skip(1));
                }
            }
            return Some((dir, p2 + 1));
        } else {
            proof {
                assert forall|kvs: Seq<(Seq<char>, Seq<char>)>, rest: Seq<char>|
                    keys_distinct(kvs)
                        implies s@.skip(i as int) != #[trigger] dir_image(kvs, rest) by {
                    if s@.skip(i as int) == dir_image(kvs, rest) {
                        let m = dir0.len() as int;
                        if m + 1 == kvs.len() {
                            assert(s@.skip(p2 as int) =~= seq!['}'] + rest);
                            assert(s@.skip(p2 as int)[0] == '}');
                            assert(s@[p2 as int] == '}');
                        } else {
                            assert(s@.skip(p2 as int) =~= seq![',']
                                + (kvs_json(kvs.skip(m + 1)) + seq!['}'] + rest));
                            assert(s@.skip(p2 as int)[0] == ',');
                            assert(s@[p2 as int] == ',');
                        }
                    }
                }
            }
            return None;
        }
    }
}

/// A non-empty row list's text opens with a quote.
proof fn lemma_rows_json_head(rows: Seq<(Seq<char>, Seq<(Seq<char>, Seq<char>)>)>)
    requires
        rows.len() > 0,
    ensures
        rows_json(rows).len() >= 1,
        rows_json(rows)[0] == '"',
{
    assert(row_json(rows[0])[0] == '"');
}

/// Splits the unread part of a document at its next row: `t` is what
/// remains once the rows before `m` and their separators are consumed.
proof fn lemma_rows_mid(rows: Seq<(Seq<char>, Seq<(Seq<char>, Seq<char>)>)>, m: int, t: Seq<char>)
    requires
        0 <= m < rows.len(),
        t == rows_json(rows.skip(m)) + seq!['}', '}'],
    ensures
        ({
            let rest2 = (if m + 1 == rows.len() {
                Seq::<char>::empty()
            } else {
                seq![','] + rows_json(rows.skip(m + 1))
            }) + seq!['}', '}'];
            t == str_image(rows[m].0, seq![':'] + dir_image(rows[m].1, rest2))
        }),
{
    let y = rows.skip(m);
    assert(y[0] == rows[m]);
    assert(y.skip(1) =~= rows.skip(m + 1));
    let rest2 = (if m + 1 == rows.len() {
        Seq::<char>::empty()
    } else {
        seq![','] + rows_json(rows.skip(m + 1))
    }) + seq!['}', '}'];
    if y.len() == 1 {
        assert(t =~= str_image(rows[m].0, seq![':'] + dir_image(rows[m].1, rest2)));
    } else {
        assert(t =~= str_image(rows[m].0, seq![':'] + dir_image(rows[m].1, rest2)));
    }
}

/// Reads a whole document.
///
/// Two-sided on the writer's images of well-formed rows: such a document
/// parses to exactly its rows, and a rejection means the text is no such
/// document.
#[verifier::rlimit(100)]
#[verifier::spinoff_prover]
fn parse_data(s: &Vec<char>) -> (r: Option<Data>)
    ensures
        (match r {
            Some(d) => d.wf() && (forall|rows: Seq<(Seq<char>, Seq<(Seq<char>, Seq<char>)>)>|
                rows_wf(rows) && s@ == #[trigger] json_of(rows) ==> d.rows() == rows),
            None => forall|rows: Seq<(Seq<char>, Seq<(Seq<char>, Seq<char>)>)>|
                rows_wf(rows) ==> s@ != #[trigger] json_of(rows),
        }),
{
    if s.len() < 16 || s[0] != '{' || s[1] != '"' || s[2] != 'p' || s[3] != 'r' || s[4] != 'o'
        || s[5] != 'j' || s[6] != 'e' || s[7] != 'c' || s[8] != 't' || s[9] != 'o'
        || s[10] != 'r' || s[11] != '"' || s[12] != ':' || s[13] != '{' {
        proof {
            assert forall|rows: Seq<(Seq<char>, Seq<(Seq<char>, Seq<char>)>)>| rows_wf(rows)
                implies s@ != #[trigger] json_of(rows) by {
                if s@ == json_of(rows) {
                    assert forall|k: int| 0 <= k < 14 implies s@[k] == json_header()[k] by {
                        assert(json_of(rows)[k] == json_header()[k]);
                    }
                    assert(s@[0] == '{' && s@[1] == '"' && s@[2] == 'p' && s@[3] == 'r'
                        && s@[4] == 'o' && s@[5] == 'j' && s@[6] == 'e' && s@[7] == 'c'
                        && s@[8] == 't' && s@[9] == 'o' && s@[10] == 'r' && s@[11] == '"'
                        && s@[12] == ':' && s@[13] == '{');
                }
            }
        }
        return None;
    }
    let mut data = crate::store::default_data();
    if s[14] == '}' {
        if s.len() == 16 && s[15] == '}' {
            proof {
                assert forall|rows: Seq<(Seq<char>, Seq<(Seq<char>, Seq<char>)>)>|
                    rows_wf(rows) && s@ == #[trigger] json_of(rows)
                        implies data.rows() == rows by {
                    if rows.len() > 0 {
                        lemma_rows_json_head(rows);
                        assert(s@[14] == rows_json(rows)[0]);
                        assert(false);
                    }
                    assert(data.rows() =~= rows);
                }
            }
            return Some(data);
        }
        proof {
            assert forall|rows: Seq<(Seq<char>, Seq<(Seq<char>, Seq<char>)>)>| rows_wf(rows)
                implies s@ != #[trigger] json_of(rows) by {
                if s@ == json_of(rows) {
                    if rows.len() > 0 {
                        lemma_rows_json_head(rows);
                        assert(s@[14] == rows_json(rows)[0]);
                        assert(false);
                    }
                    assert(s@ =~= json_header() + seq!['}', '}']);
                    assert(s@.len() == 16);
                    assert(s@[15] == '}');
                }
            }
        }
        return None;
    }
    let mut pos: usize = 14;
    proof {
        assert forall|rows: Seq<(Seq<char>, Seq<(Seq<char>, Seq<char>)>)>|
            rows_wf(rows) && s@ == #[trigger] json_of(rows)
                implies data.rows().len() < rows.len()
                    && data.rows() == rows.take(data.rows().len() as int)
                    && s@.skip(pos as int) == rows_json(rows.skip(data.rows().len() as int))
                        + seq!['}', '}'] by {
            assert(s@.skip(14) =~= rows_json(rows) + seq!['}', '}']);
            if rows.len() == 0 {
                assert(s@.skip(14)[0] == '}');
                assert(s@[14] == '}');
                assert(false);
            }
            assert(data.rows() =~= rows.take(0));
            assert(rows.skip(0) =~= rows);
        }
    }
    loop
        invariant
            14 <= pos <= s@.len(),
            data.wf(),
            forall|rows: Seq<(Seq<char>, Seq<(Seq<char>, Seq<char>)>)>|
                rows_wf(rows) && s@ == #[trigger] json_of(rows)
                    ==> data.rows().len() < rows.len()
                        && data.rows() == rows.take(data.rows().len() as int)
                        && s@.skip(pos as int) == rows_json(rows.skip(data.rows().len() as int))
                            + seq!['}', '}'],
        decreases s@.len() - pos,
    {
        let ghost pos0 = pos as int;
        let ghost rows0 = data.rows();
        let (path, p1) = match parse_string_at(s, pos) {
            Some(pp) => pp,
            None => {
                proof {
                    assert forall|rows: Seq<(Seq<char>, Seq<(Seq<char>, Seq<char>)>)>|
                        rows_wf(rows) implies s@ != #[trigger] json_of(rows) by {
                        if s@ == json_of(rows) {
                            lemma_rows_mid(rows, rows0.len() as int, s@.skip(pos0));
                        }
                    }
                }
                return None;
            },
        };
        if p1 >= s.len() || s[p1] != ':' {
            proof {
                assert forall|rows: Seq<(Seq<char>, Seq<(Seq<char>, Seq<char>)>)>|
                    rows_wf(rows) implies s@ != #[trigger] json_of(rows) by {
                    if s@ == json_of(rows) {
                        lemma_rows_mid(rows, rows0.len() as int, s@.skip(pos0));
                        assert(s@.skip(p1 as int)[0] == ':');
                    }
                }
            }
            return None;
        }
        let (dir, p2) = match parse_dir_at(s, p1 + 1) {
            Some(dp) => dp,
            None => {
                proof {
                    assert forall|rows: Seq<(Seq<char>, Seq<(Seq<char>, Seq<char>)>)>|
                        rows_wf(rows) implies s@ != #[trigger] json_of(rows) by {
                        if s@ == json_of(rows) {
                            let m = rows0.len() as int;
                            lemma_rows_mid(rows, m, s@.skip(pos0));
                            let rest2 = (if m + 1 == rows.len() {
                                Seq::<char>::empty()
                            } else {
                                seq![','] + rows_json(rows.skip(m + 1))
                            }) + seq!['}', '}'];
                            assert(keys_distinct(rows[m].1));
                            assert(s@.skip(p1 as int) == seq![':']
                                + dir_image(rows[m].1, rest2));
                            assert(s@.skip(p1 as int + 1) =~= s@.skip(p1 as int).skip(1));
                            assert((seq![':'] + dir_image(rows[m].1, rest2)).skip(1)
                                =~= dir_image(rows[m].1, rest2));
                        }
                    }
                }
                return None;
            },
        };
        let ghost path0 = path@;
        let ghost dkvs = dir.kvs();
        if !data.insert_dir(path, dir) {
            proof {
                assert forall|rows: Seq<(Seq<char>, Seq<(Seq<char>, Seq<char>)>)>|
                    rows_wf(rows) implies s@ != #[trigger] json_of(rows) by {
                    if s@ == json_of(rows) {
                        let m = rows0.len() as int;
                        lemma_rows_mid(rows, m, s@.skip(pos0));
                        assert(path0 == rows[m].0);
                        assert forall|j: int| 0 <= j < data.projector@.len()
                            implies (#[trigger] data.projector@[j]).path@ != path0 by {
                            assert(data.rows()[j] == rows.take(m)[j]);
                            assert(data.rows()[j].0 == data.projector@[j].path@);
                            assert(rows[j].0 != rows[m].0);
                        }
                        crate::store::lemma_data_absent(data, path0);
                    }
                }
            }
            return None;
        }
        proof {
            assert forall|rows: Seq<(Seq<char>, Seq<(Seq<char>, Seq<char>)>)>|
                rows_wf(rows) && s@ == #[trigger] json_of(rows)
                    implies data.rows() == rows.take(rows0.len() as int + 1)
                        && s@.skip(p2 as int) == (if rows0.len() as int + 1 == rows.len() {
                            Seq::<char>::empty()
                        } else {
                            seq![','] + rows_json(rows.skip(rows0.len() as int + 1))
                        }) + seq!['}', '}'] by {
                let m = rows0.len() as int;
                lemma_rows_mid(rows, m, s@.skip(pos0));
                let rest2 = (if m + 1 == rows.len() {
                    Seq::<char>::empty()
                } else {
                    seq![','] + rows_json(rows.skip(m + 1))
                }) + seq!['}', '}'];
                assert(s@.skip(p1 as int) == seq![':'] + dir_image(rows[m].1, rest2));
                assert(s@.skip(p1 as int + 1) =~= s@.skip(p1 as int).skip(1));
                assert((seq![':'] + dir_image(rows[m].1, rest2)).skip(1)
                    =~= dir_image(rows[m].1, rest2));
                assert(keys_distinct(rows[m].1));
                assert(path0 == rows[m].0 && dkvs == rows[m].1);
                assert(s@.skip(p2 as int) == rest2);
                assert(data.rows() == rows0.push((path0, dkvs)));
                assert(rows.take(m + 1) =~= rows.take(m).push(rows[m]));
            }
        }
        if p2 < s.len() && s[p2] == ',' {
            pos = p2 + 1;
            proof {
                assert forall|rows: Seq<(Seq<char>, Seq<(Seq<char>, Seq<char>)>)>|
                    rows_wf(rows) && s@ == #[trigger] json_of(rows)
                        implies data.rows().len() < rows.len()
                            && data.rows() == rows.take(data.rows().len() as int)
                            && s@.skip(pos as int) == rows_json(
                                rows.skip(data.rows().len() as int),
                            ) + seq!['}', '}'] by {
                    let m = rows0.len() as int;
                    if m + 1 == rows.len() {
                        assert(s@.skip(p2 as int)[0] == '}');
                        assert(false);
                    }
                    assert(s@.skip(pos as int) =~= s@.skip(p2 as int).skip(1));
                    assert((seq![','] + rows_json(rows.skip(m + 1)) + seq!['}', '}']).skip(1)
                        =~= rows_json(rows.skip(m + 1)) + seq!['}', '}']);
                }
            }
        } else if s.len() - p2 == 2 && s[p2] == '}' && s[p2 + 1] == '}' {
            proof {
                assert forall|rows: Seq<(Seq<char>, Seq<(Seq<char>, Seq<char>)>)>|
                    rows_wf(rows) && s@ == #[trigger] json_of(rows)
                        implies data.rows() == rows by {
                    let m = rows0.len() as int;
                    if m + 1 < rows.len() {
                        assert(s@.skip(p2 as int) =~= seq![','] + (rows_json(rows.skip(m + 1))
                            + seq!['}', '}']));
                        assert(s@.skip(p2 as int)[0] == ',');
                        assert(s@[p2 as int] == ',');
                        assert(false);
                    }
                    assert(rows.take(m + 1) =~= rows);
                }
            }
            return Some(data);
        } else {
            proof {
                assert forall|rows: Seq<(Seq<char>, Seq<(Seq<char>, Seq<char>)>)>|
                    rows_wf(rows) implies s@ != #[trigger] json_of(rows) by {
                    if s@ == json_of(rows) {
                        let m = rows0.len() as int;
                        if m + 1 == rows.len() {
                            assert(s@.skip(p2 as int) =~= seq!['}', '}']);
                            assert(s@.skip(p2 as int)[0] == '}' && s@.skip(p2 as int)[1] == '}');
                            assert(s@[p2 as int] == '}' && s@[p2 as int + 1] == '}');
                            assert(s@.len() - p2 as int == 2);
                        } else {
                            assert(s@.skip(p2 as int) =~= seq![','] + (rows_json(
                                rows.skip(m + 1),
                            ) + seq!['}', '}']));
                            assert(s@.skip(p2 as int)[0] == ',');
                            assert(s@[p2 as int] == ',');
                        }
                    }
                }
            }
            return None;
        }
    }
}

/// The escape of a character is never empty and never opens with a quote.
proof fn lemma_esc_char_head(c: char)
    ensures
        esc_char(c).len() >= 1,
        esc_char(c)[0] != '"',
        esc_char(c)[0] == '\\' ==> esc_char(c).len() >= 2,
{
}

/// Two escape sequences that open the same text are the same escape of the
/// same character.
proof fn lemma_esc_char_det(c1: char, c2: char, r1: Seq<char>, r2: Seq<char>)
    requires
        esc_char(c1) + r1 == esc_char(c2) + r2,
    ensures
        c1 == c2,
        r1 == r2,
{
    let e1 = esc_char(c1);
    let e2 = esc_char(c2);
    let s = e1 + r1;
    assert(s[0] == e1[0] && s[0] == e2[0]);
    if e1[0] != '\\' {
        assert(e1 =~= seq![c1] && c1 != '\\');
        assert(e2[0] == c1);
        assert(e2 =~= seq![c2]);
        assert(r1 =~= s.skip(1) && r2 =~= s.skip(1));
    } else if e2[0] != '\\' {
        assert(e2 =~= seq![c2] && c2 != '\\');
        assert(e1[0] == c2);
        assert(false);
    } else {
        assert(s[1] == e1[1] && s[1] == e2[1]);
        if c1 == '"' || c1 == '\\' {
            assert(e1.len() == 2);
            assert(e2[1] == e1[1] && (e2[1] == '"' || e2[1] == '\\'));
            assert(c2 == c1);
            assert(r1 =~= s.skip(2) && r2 =~= s.skip(2));
        } else {
            assert(e1[1] == 'u');
            assert(!(c2 == '"' || c2 == '\\'));
            let a1 = c1 as u32 as int;
            let a2 = c2 as u32 as int;
            assert(s[4] == e1[4] && s[4] == e2[4]);
            assert(s[5] == e1[5] && s[5] == e2[5]);
            assert(hex_digit(a1 / 16) == hex_digit(a2 / 16));
            assert(hex_digit(a1 % 16) == hex_digit(a2 % 16));
            assert(a1 / 16 == a2 / 16 && a1 % 16 == a2 % 16);
            assert(a1 == a2);
            assert(c1 as u32 == c2 as u32);
            assert(c1 == c2);
            assert(r1 =~= s.skip(6) && r2 =~= s.skip(6));
        }
    }
}

/// Two quoted literals that open the same text hold the same string and
/// are followed by the same rest.
proof fn lemma_quoted_det(x1: Seq<char>, r1: Seq<char>, x2: Seq<char>, r2: Seq<char>)
    requires
        esc(x1) + seq!['"'] + r1 == esc(x2) + seq!['"'] + r2,
    ensures
        x1 == x2,
        r1 == r2,
    decreases x1.len(),
{
    let s = esc(x1) + seq!['"'] + r1;
    if x1.len() == 0 {
        assert(s[0] == '"');
        if x2.len() > 0 {
            lemma_esc_char_head(x2[0]);
            assert(s[0] == esc_char(x2[0])[0]);
            assert(false);
        }
        assert(x1 =~= x2);
        assert(r1 =~= s.skip(1) && r2 =~= s.skip(1));
    } else if x2.len() == 0 {
        lemma_esc_char_head(x1[0]);
        assert(s[0] == esc_char(x1[0])[0]);
        assert(s[0] == '"');
        assert(false);
    } else {
        assert(esc(x1) + seq!['"'] + r1
            =~= esc_char(x1[0]) + (esc(x1.skip(1)) + seq!['"'] + r1));
        assert(esc(x2) + seq!['"'] + r2
            =~= esc_char(x2[0]) + (esc(x2.skip(1)) + seq!['"'] + r2));
        lemma_esc_char_det(
            x1[0],
            x2[0],
            esc(x1.skip(1)) + seq!['"'] + r1,
            esc(x2.skip(1)) + seq!['"'] + r2,
        );
        lemma_quoted_det(x1.skip(1), r1, x2.skip(1), r2);
        assert(x1 =~= seq![x1[0]] + x1.skip(1));
        assert(x2 =~= seq![x2[0]] + x2.skip(1));
    }
}

/// Two members that open the same text hold the same pair.
proof fn lemma_kv_det(
    kv1: (Seq<char>, Seq<char>),
    r1: Seq<char>,
    kv2: (Seq<char>, Seq<char>),
    r2: Seq<char>,
)
    requires
        kv_json(kv1) + r1 == kv_json(kv2) + r2,
    ensures
        kv1 == kv2,
        r1 == r2,
{
    let s1 = kv_json(kv1) + r1;
    let s2 = kv_json(kv2) + r2;
    assert(s1.skip(1) =~= esc(kv1.0) + seq!['"'] + (seq![':', '"'] + esc(kv1.1) + seq!['"'] + r1));
    assert(s2.skip(1) =~= esc(kv2.0) + seq!['"'] + (seq![':', '"'] + esc(kv2.1) + seq!['"'] + r2));
    lemma_quoted_det(
        kv1.0,
        seq![':', '"'] + esc(kv1.1) + seq!['"'] + r1,
        kv2.0,
        seq![':', '"'] + esc(kv2.1) + seq!['"'] + r2,
    );
    let t1 = seq![':', '"'] + esc(kv1.1) + seq!['"'] + r1;
    let t2 = seq![':', '"'] + esc(kv2.1) + seq!['"'] + r2;
    assert(t1.skip(2) =~= esc(kv1.1) + seq!['"'] + r1);
    assert(t2.skip(2) =~= esc(kv2.1) + seq!['"'] + r2);
    lemma_quoted_det(kv1.1, r1, kv2.1, r2);
}

/// Two comma-joined member lists that open the same text, each followed by
/// a closing brace, are the same list with the same rest.
proof fn lemma_kvs_det(
    l1: Seq<(Seq<char>, Seq<char>)>,
    r1: Seq<char>,
    l2: Seq<(Seq<char>, Seq<char>)>,
    r2: Seq<char>,
)
    requires
        kvs_json(l1) + r1 == kvs_json(l2) + r2,
        r1.len() >= 1 && r1[0] == '}',
        r2.len() >= 1 && r2[0] == '}',
    ensures
        l1 == l2,
        r1 == r2,
    decreases l1.len(),
{
    let s = kvs_json(l1) + r1;
    if l1.len() == 0 && l2.len() == 0 {
        assert(r1 =~= s && r2 =~= s);
    } else if l1.len() == 0 {
        assert(s[0] == '}');
        assert(s[0] == (kv_json(l2[0]))[0]);
        assert(false);
    } else if l2.len() == 0 {
        assert(s[0] == (kv_json(l1[0]))[0]);
        assert(s[0] == '}');
        assert(false);
    } else {
        let a1 = if l1.len() == 1 { r1 } else { seq![','] + kvs_json(l1.skip(1)) + r1 };
        let a2 = if l2.len() == 1 { r2 } else { seq![','] + kvs_json(l2.skip(1)) + r2 };
        assert(kv_json(l1[0]) + a1 =~= s);
        assert(kv_json(l2[0]) + a2 =~= s);
        lemma_kv_det(l1[0], a1, l2[0], a2);
        if l1.len() == 1 && l2.len() == 1 {
            assert(l1 =~= l2);
        } else if l1.len() == 1 {
            assert(a1[0] == '}' && a2[0] == ',');
            assert(false);
        } else if l2.len() == 1 {
            assert(a1[0] == ',' && a2[0] == '}');
            assert(false);
        } else {
            assert(a1.skip(1) =~= kvs_json(l1.skip(1)) + r1);
            assert(a2.skip(1) =~= kvs_json(l2.skip(1)) + r2);
            lemma_kvs_det(l1.skip(1), r1, l2.skip(1), r2);
            assert(l1 =~= seq![l1[0]] + l1.skip(1));
            assert(l2 =~= seq![l2[0]] + l2.skip(1));
        }
    }
}

/// Two top-level members that open the same text hold the same row.
proof fn lemma_row_det(
    row1: (Seq<char>, Seq<(Seq<char>, Seq<char>)>),
    r1: Seq<char>,
    row2: (Seq<char>, Seq<(Seq<char>, Seq<char>)>),
    r2: Seq<char>,
)
    requires
        row_json(row1) + r1 == row_json(row2) + r2,
    ensures
        row1 == row2,
        r1 == r2,
{
    let s1 = row_json(row1) + r1;
    let s2 = row_json(row2) + r2;
    let t1 = seq![':', '{'] + kvs_json(row1.1) + (seq!['}'] + r1);
    let t2 = seq![':', '{'] + kvs_json(row2.1) + (seq!['}'] + r2);
    assert(s1.skip(1) =~= esc(row1.0) + seq!['"'] + t1);
    assert(s2.skip(1) =~= esc(row2.0) + seq!['"'] + t2);
    lemma_quoted_det(row1.0, t1, row2.0, t2);
    assert(t1.skip(2) =~= kvs_json(row1.1) + (seq!['}'] + r1));
    assert(t2.skip(2) =~= kvs_json(row2.1) + (seq!['}'] + r2));
    lemma_kvs_det(row1.1, seq!['}'] + r1, row2.1, seq!['}'] + r2);
    assert(r1 =~= (seq!['}'] + r1).skip(1));
    assert(r2 =~= (seq!['}'] + r2).skip(1));
}

/// Two comma-joined row lists that open the same text, each followed by a
/// closing brace, are the same list with the same rest.
proof fn lemma_rows_det(
    l1: Seq<(Seq<char>, Seq<(Seq<char>, Seq<char>)>)>,
    r1: Seq<char>,
    l2: Seq<(Seq<char>, Seq<(Seq<char>, Seq<char>)>)>,
    r2: Seq<char>,
)
    requires
        rows_json(l1) + r1 == rows_json(l2) + r2,
        r1.len() >= 1 && r1[0] == '}',
        r2.len() >= 1 && r2[0] == '}',
    ensures
        l1 == l2,
        r1 == r2,
    decreases l1.len(),
{
    let s = rows_json(l1) + r1;
    if l1.len() == 0 && l2.len() == 0 {
        assert(r1 =~= s && r2 =~= s);
    } else if l1.len() == 0 {
        assert(s[0] == '}');
        assert(s[0] == (row_json(l2[0]))[0]);
        assert(false);
    } else if l2.len() == 0 {
        assert(s[0] == (row_json(l1[0]))[0]);
        assert(s[0] == '}');
        assert(false);
    } else {
        let a1 = if l1.len() == 1 { r1 } else { seq![','] + rows_json(l1.skip(1)) + r1 };
        let a2 = if l2.len() == 1 { r2 } else { seq![','] + rows_json(l2.skip(1)) + r2 };
        assert(row_json(l1[0]) + a1 =~= s);
        assert(row_json(l2[0]) + a2 =~= s);
        lemma_row_det(l1[0], a1, l2[0], a2);
        if l1.len() == 1 && l2.len() == 1 {
            assert(l1 =~= l2);
        } else if l1.len() == 1 {
            assert(a1[0] == '}' && a2[0] == ',');
            assert(false);
        } else if l2.len() == 1 {
            assert(a1[0] == ',' && a2[0] == '}');
            assert(false);
        } else {
            assert(a1.skip(1) =~= rows_json(l1.skip(1)) + r1);
            assert(a2.skip(1) =~= rows_json(l2.skip(1)) + r2);
            lemma_rows_det(l1.skip(1), r1, l2.skip(1), r2);
            assert(l1 =~= seq![l1[0]] + l1.skip(1));
            assert(l2 =~= seq![l2[0]] + l2.skip(1));
        }
    }
}

/// The writer never writes the same document for two different stores.
pub proof fn lemma_json_of_injective(
    rows1: Seq<(Seq<char>, Seq<(Seq<char>, Seq<char>)>)>,
    rows2: Seq<(Seq<char>, Seq<(Seq<char>, Seq<char>)>)>,
)
    requires
        json_of(rows1) == json_of(rows2),
    ensures
        rows1 == rows2,
{
    let s = json_of(rows1);
    assert(s.skip(14) =~= rows_json(rows1) + seq!['}', '}']);
    assert(json_of(rows2).skip(14) =~= rows_json(rows2) + seq!['}', '}']);
    lemma_rows_det(rows1, seq!['}', '}'], rows2, seq!['}', '}']);
}

/// The rows whose document is `s`, when `s` is a document at all. The
/// writer's injectivity makes this single-valued.
pub open spec fn json_data(s: Seq<char>) -> Option<
    Seq<(Seq<char>, Seq<(Seq<char>, Seq<char>)>)>,
> {
    if exists|rows: Seq<(Seq<char>, Seq<(Seq<char>, Seq<char>)>)>| json_of(rows) == s {
        Some(choose|rows: Seq<(Seq<char>, Seq<(Seq<char>, Seq<char>)>)>| json_of(rows) == s)
    } else {
        None
    }
}

/// Round trip of persistence: the document written for a store reads back
/// to exactly that store's rows — the same directory keys and the same
/// key/value pairs per directory, in the same order.
pub proof fn lemma_round_trip(rows: Seq<(Seq<char>, Seq<(Seq<char>, Seq<char>)>)>)
    ensures
        json_data(json_of(rows)) == Some(rows),
{
    assert(json_of(rows) == json_of(rows));
    let picked = choose|r2: Seq<(Seq<char>, Seq<(Seq<char>, Seq<char>)>)>|
        json_of(r2) == json_of(rows);
    lemma_json_of_injective(picked, rows);
}

/// Reads a store back from a document.
///
/// A store is returned exactly when `text` is, character for character,
/// the document the writer emits for it: the written form of any
/// well-formed rows reads back to those rows, and everything else is
/// rejected with `None`.
pub fn from_json(text: &str) -> (r: Option<Data>)
    ensures
        r matches Some(d) ==> d.wf() && json_of(d.rows()) == text@
            && json_data(text@) == Some(d.rows()),
        (match json_data(text@) {
            Some(rows) => rows_wf(rows) ==> (r matches Some(d) && d.rows() == rows),
            None => r is None,
        }),
{
    let ghost picked = json_data(text@);
    proof {
        match picked {
            Some(rows) => {
                assert(json_of(rows) == text@);
            },
            None => {},
        }
    }
    let chars = string_to_chars(text);
    match parse_data(&chars) {
        Some(d) => {
            let again = to_json(&d);
            if str_eq(again.as_str(), text) {
                proof {
                    lemma_round_trip(d.rows());
                }
                Some(d)
            } else {
                proof {
                    match picked {
                        Some(rows) => {
                            if rows_wf(rows) {
                                assert(d.rows() == rows);
                                assert(false);
                            }
                        },
                        None => {},
                    }
                }
                None
            }
        },
        None => {
            proof {
                match picked {
                    Some(rows) => {
                        if rows_wf(rows) {
                            assert(false);
                        }
                    },
                    None => {},
                }
            }
            None
        },
    }
}

} // verus!
