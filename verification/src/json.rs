//! JSON string literals: the text that stands for a string in the log, and
//! the two calls into `serde_json` that write and read it.
use vstd::prelude::*;
use vstd::utf8::*;

verus! {

/// The lower-case hexadecimal digit for `d`, which is below sixteen.
pub open spec fn hex_digit(d: int) -> u8 {
    if d < 10 {
        (0x30 + d) as u8
    } else {
        (0x57 + d) as u8
    }
}

/// How one byte of a string's UTF-8 form is written inside a JSON string
/// literal: the quote and the backslash get a backslash in front, the control
/// bytes get their short escape where JSON has one and `\u00XX` otherwise, and
/// every other byte stands for itself.
pub open spec fn escaped_byte(b: u8) -> Seq<u8> {
    if b == 0x22 {
        seq![0x5cu8, 0x22u8]
    } else if b == 0x5c {
        seq![0x5cu8, 0x5cu8]
    } else if b == 0x08 {
        seq![0x5cu8, 0x62u8]
    } else if b == 0x09 {
        seq![0x5cu8, 0x74u8]
    } else if b == 0x0a {
        seq![0x5cu8, 0x6eu8]
    } else if b == 0x0c {
        seq![0x5cu8, 0x66u8]
    } else if b == 0x0d {
        seq![0x5cu8, 0x72u8]
    } else if b < 0x20 {
        seq![0x5cu8, 0x75u8, 0x30u8, 0x30u8, hex_digit(b as int / 16), hex_digit(b as int % 16)]
    } else {
        seq![b]
    }
}

/// The escaped form of a run of bytes, byte by byte.
pub open spec fn escaped(bytes: Seq<u8>) -> Seq<u8>
    decreases bytes.len(),
{
    if bytes.len() == 0 {
        Seq::empty()
    } else {
        escaped_byte(bytes[0]) + escaped(bytes.skip(1))
    }
}

/// The JSON string literal for `s`: its escaped UTF-8 form between quotes.
pub open spec fn json_text(s: Seq<char>) -> Seq<u8> {
    seq![0x22u8] + escaped(encode_utf8(s)) + seq![0x22u8]
}

/// `pat` stands in `bytes` at `pos`.
pub open spec fn has_at(bytes: Seq<u8>, pos: int, pat: Seq<u8>) -> bool {
    &&& 0 <= pos
    &&& pos + pat.len() <= bytes.len()
    &&& bytes.subrange(pos, pos + pat.len()) == pat
}

/// A pattern made of two parts stands at `pos` exactly when the first part
/// stands there and the second right behind it.
pub proof fn lemma_has_at_concat(bytes: Seq<u8>, pos: int, a: Seq<u8>, b: Seq<u8>)
    ensures
        has_at(bytes, pos, a + b) <==> has_at(bytes, pos, a) && has_at(bytes, pos + a.len(), b),
{
    let n = pos + a.len();
    if has_at(bytes, pos, a + b) {
        assert(bytes.subrange(pos, n) =~= (a + b).subrange(0, a.len() as int));
        assert((a + b).subrange(0, a.len() as int) =~= a);
        assert(bytes.subrange(n, n + b.len()) =~= (a + b).subrange(
            a.len() as int,
            (a + b).len() as int,
        ));
        assert((a + b).subrange(a.len() as int, (a + b).len() as int) =~= b);
    }
    if has_at(bytes, pos, a) && has_at(bytes, n, b) {
        assert(bytes.subrange(pos, pos + (a + b).len()) =~= bytes.subrange(pos, n)
            + bytes.subrange(n, n + b.len()));
    }
}

/// What stands at `pos` is read off byte by byte.
pub proof fn lemma_has_at_index(bytes: Seq<u8>, pos: int, pat: Seq<u8>, k: int)
    requires
        has_at(bytes, pos, pat),
        0 <= k < pat.len(),
    ensures
        bytes[pos + k] == pat[k],
{
    assert(bytes.subrange(pos, pos + pat.len())[k] == bytes[pos + k]);
}

/// A pattern still stands where it stood once bytes are added behind.
pub proof fn lemma_has_at_extend(bytes: Seq<u8>, more: Seq<u8>, pos: int, pat: Seq<u8>)
    requires
        has_at(bytes, pos, pat),
    ensures
        has_at(bytes + more, pos, pat),
{
    assert((bytes + more).subrange(pos, pos + pat.len()) =~= bytes.subrange(
        pos,
        pos + pat.len(),
    ));
}

/// No escape begins with a quote, and the byte can be told from its escape
/// whatever follows.
proof fn lemma_escaped_byte_unique(a: u8, b: u8, bytes: Seq<u8>, pos: int)
    requires
        has_at(bytes, pos, escaped_byte(a)),
        has_at(bytes, pos, escaped_byte(b)),
    ensures
        a == b,
{
    let ea = escaped_byte(a);
    let eb = escaped_byte(b);
    lemma_has_at_index(bytes, pos, ea, 0);
    lemma_has_at_index(bytes, pos, eb, 0);
    if ea.len() >= 2 {
        lemma_has_at_index(bytes, pos, ea, 1);
    }
    if eb.len() >= 2 {
        lemma_has_at_index(bytes, pos, eb, 1);
    }
    if ea.len() == 6 && eb.len() == 6 {
        lemma_has_at_index(bytes, pos, ea, 4);
        lemma_has_at_index(bytes, pos, eb, 4);
        lemma_has_at_index(bytes, pos, ea, 5);
        lemma_has_at_index(bytes, pos, eb, 5);
        assert(a as int / 16 == b as int / 16);
        assert(a as int % 16 == b as int % 16);
    }
}

/// An escaped run followed by the closing quote can be read in one way only.
proof fn lemma_escaped_unique(x: Seq<u8>, y: Seq<u8>, bytes: Seq<u8>, pos: int)
    requires
        has_at(bytes, pos, escaped(x) + seq![0x22u8]),
        has_at(bytes, pos, escaped(y) + seq![0x22u8]),
    ensures
        x == y,
    decreases x.len(),
{
    let quote = seq![0x22u8];
    if x.len() == 0 || y.len() == 0 {
        if x.len() == 0 {
            lemma_escaped_closed(x, y, bytes, pos);
        } else {
            lemma_escaped_closed(y, x, bytes, pos);
        }
        assert(x =~= y);
    } else {
        let rx = escaped(x.skip(1)) + quote;
        let ry = escaped(y.skip(1)) + quote;
        let ex = escaped_byte(x[0]);
        let ey = escaped_byte(y[0]);
        assert(escaped(x) + quote =~= ex + rx);
        assert(escaped(y) + quote =~= ey + ry);
        lemma_has_at_concat(bytes, pos, ex, rx);
        lemma_has_at_concat(bytes, pos, ey, ry);
        lemma_escaped_byte_unique(x[0], y[0], bytes, pos);
        lemma_escaped_unique(x.skip(1), y.skip(1), bytes, pos + ex.len());
        assert(x =~= seq![x[0]] + x.skip(1));
        assert(y =~= seq![y[0]] + y.skip(1));
    }
}

/// Where the closing quote of an empty run stands, no escaped byte begins:
/// the other run is empty too.
proof fn lemma_escaped_closed(x: Seq<u8>, y: Seq<u8>, bytes: Seq<u8>, pos: int)
    requires
        x.len() == 0,
        has_at(bytes, pos, escaped(x) + seq![0x22u8]),
        has_at(bytes, pos, escaped(y) + seq![0x22u8]),
    ensures
        y.len() == 0,
{
    if y.len() != 0 {
        let quote = seq![0x22u8];
        assert(escaped(x) + quote =~= quote);
        lemma_has_at_index(bytes, pos, quote, 0);
        let ey = escaped_byte(y[0]);
        let ry = escaped(y.skip(1)) + quote;
        assert(escaped(y) + quote =~= ey + ry);
        lemma_has_at_concat(bytes, pos, ey, ry);
        lemma_has_at_index(bytes, pos, ey, 0);
    }
}

/// The escaped form of a run with one more byte behind it is the escaped
/// run with that byte's escape behind it.
pub proof fn lemma_escaped_push(bytes: Seq<u8>, b: u8)
    ensures
        escaped(bytes.push(b)) == escaped(bytes) + escaped_byte(b),
    decreases bytes.len(),
{
    let more = bytes.push(b);
    if bytes.len() == 0 {
        assert(more.skip(1) =~= Seq::<u8>::empty());
        assert(escaped(more) =~= escaped_byte(b) + escaped(more.skip(1)));
        assert(escaped(more) =~= escaped(bytes) + escaped_byte(b));
    } else {
        lemma_escaped_push(bytes.skip(1), b);
        assert(more.skip(1) =~= bytes.skip(1).push(b));
        assert(escaped(more) =~= escaped(bytes) + escaped_byte(b));
    }
}

/// A JSON string literal is at least its two quotes, and opens with one.
pub proof fn lemma_json_text_shape(s: Seq<char>)
    ensures
        json_text(s).len() >= 2,
        json_text(s)[0] == 0x22,
{
}

/// Two strings whose literals stand at the same place are the same string:
/// no literal is the beginning of another.
pub proof fn lemma_json_text_unique(s: Seq<char>, t: Seq<char>, bytes: Seq<u8>, pos: int)
    requires
        has_at(bytes, pos, json_text(s)),
        has_at(bytes, pos, json_text(t)),
    ensures
        s == t,
{
    let quote = seq![0x22u8];
    let bs = escaped(encode_utf8(s)) + quote;
    let bt = escaped(encode_utf8(t)) + quote;
    assert(json_text(s) =~= quote + bs);
    assert(json_text(t) =~= quote + bt);
    lemma_has_at_concat(bytes, pos, quote, bs);
    lemma_has_at_concat(bytes, pos, quote, bt);
    lemma_escaped_unique(encode_utf8(s), encode_utf8(t), bytes, pos + 1);
    encode_utf8_decode_utf8(s);
    encode_utf8_decode_utf8(t);
}

/// Writes `s` as a JSON string literal, by `serde_json::to_vec` on a `str`.
///
/// Trusted: the result is the quoted, escaped UTF-8 form of `s` that
/// `json_text` spells out.  The call cannot fail here: the serializer writes
/// into a `Vec<u8>`, on which a write always succeeds, and a string holds no
/// map whose keys could be refused; the escapes are those of the
/// serializer's table.
#[verifier::external_body]
pub(crate) fn write_json_string(s: &str) -> (out: Vec<u8>)
    ensures
        out@ == json_text(s@),
{
    serde_json::to_vec(s).unwrap_or_default()
}

/// Reads one JSON string literal that starts at `pos` in `bytes`, by the
/// streaming deserializer of `serde_json` (`Deserializer::from_slice`,
/// `into_iter`, `next` and `byte_offset`), and tells how many bytes it took.
///
/// Trusted: a result lies within the input and is not empty; and where the
/// literal that `json_text` gives for some string stands at `pos`, the call
/// yields that string and that literal's length.  Of other input (escapes the
/// serializer would not write, white space before the literal) nothing is
/// claimed but the bounds.
#[verifier::external_body]
pub(crate) fn read_json_string(bytes: &[u8], pos: usize) -> (out: Option<(String, usize)>)
    requires
        pos <= bytes@.len(),
    ensures
        out is Some ==> 0 < out.unwrap().1,
        out is Some ==> pos + out.unwrap().1 <= bytes@.len(),
        forall|t: Seq<char>| #[trigger]
            has_at(bytes@, pos as int, json_text(t)) ==> out is Some && out.unwrap().0@ == t,
        forall|t: Seq<char>| #[trigger]
            has_at(bytes@, pos as int, json_text(t)) ==> out is Some && out.unwrap().1
                == json_text(t).len(),
{
    let mut stream = serde_json::Deserializer::from_slice(&bytes[pos..]).into_iter::<String>();
    match stream.next() {
        Some(Ok(s)) => Some((s, stream.byte_offset())),
        _ => None,
    }
}

/// Whether `pat` stands in `bytes` at `pos`.
pub fn stands_at(bytes: &Vec<u8>, pos: usize, pat: &Vec<u8>) -> (found: bool)
    ensures
        found == has_at(bytes@, pos as int, pat@),
{
    if pos > bytes.len() || pat.len() > bytes.len() - pos {
        return false;
    }
    let mut k: usize = 0;
    while k < pat.len()
        invariant
            k <= pat.len(),
            pos + pat.len() <= bytes.len(),
            forall|j: int| 0 <= j < k ==> bytes@[pos + j] == pat@[j],
        decreases pat.len() - k,
    {
        if bytes[pos + k] != pat[k] {
            proof {
                if has_at(bytes@, pos as int, pat@) {
                    lemma_has_at_index(bytes@, pos as int, pat@, k as int);
                }
            }
            return false;
        }
        k += 1;
    }
    assert(bytes@.subrange(pos as int, pos + pat.len()) =~= pat@);
    true
}

/// The lower-case hexadecimal digit for `d`.
fn hex_digit_of(d: u8) -> (c: u8)
    requires
        d < 16,
    ensures
        c == hex_digit(d as int),
{
    if d < 10 {
        0x30 + d
    } else {
        0x57 + d
    }
}

/// Puts the escape of `b` behind `out`.
fn push_escaped(out: &mut Vec<u8>, b: u8)
    ensures
        final(out)@ == old(out)@ + escaped_byte(b),
{
    if b == 0x22 || b == 0x5c {
        out.push(0x5c);
        out.push(b);
    } else if b == 0x08 {
        out.push(0x5c);
        out.push(0x62);
    } else if b == 0x09 {
        out.push(0x5c);
        out.push(0x74);
    } else if b == 0x0a {
        out.push(0x5c);
        out.push(0x6e);
    } else if b == 0x0c {
        out.push(0x5c);
        out.push(0x66);
    } else if b == 0x0d {
        out.push(0x5c);
        out.push(0x72);
    } else if b < 0x20 {
        out.push(0x5c);
        out.push(0x75);
        out.push(0x30);
        out.push(0x30);
        out.push(hex_digit_of(b / 16));
        out.push(hex_digit_of(b % 16));
    } else {
        out.push(b);
    }
    assert(out@ =~= old(out)@ + escaped_byte(b));
}

/// The JSON string literal for `s`, worked out here byte by byte.  What is
/// read from a log is held against this text.
pub fn string_text(s: &str) -> (out: Vec<u8>)
    ensures
        out@ == json_text(s@),
{
    let bytes = s.as_bytes();
    let mut out: Vec<u8> = Vec::new();
    out.push(0x22);
    let mut i: usize = 0;
    assert(bytes@.take(0) =~= Seq::<u8>::empty());
    while i < bytes.len()
        invariant
            i <= bytes@.len(),
            out@ == seq![0x22u8] + escaped(bytes@.take(i as int)),
        decreases bytes@.len() - i,
    {
        proof {
            lemma_escaped_push(bytes@.take(i as int), bytes@[i as int]);
            assert(bytes@.take(i + 1) =~= bytes@.take(i as int).push(bytes@[i as int]));
        }
        push_escaped(&mut out, bytes[i]);
        assert(out@ =~= seq![0x22u8] + escaped(bytes@.take(i + 1)));
        i += 1;
    }
    assert(bytes@.take(bytes@.len() as int) =~= bytes@);
    out.push(0x22);
    out
}

/// Reads the string whose JSON literal stands at `pos`, and tells where the
/// literal ends.  Only the literal that `json_text` gives for a string is
/// taken: a string written with other escapes is refused, so that each string
/// has one text and each text one string.
pub fn read_string(bytes: &Vec<u8>, pos: usize) -> (out: Option<(String, usize)>)
    ensures
        out is Some <==> exists|t: Seq<char>| has_at(bytes@, pos as int, json_text(t)),
        out matches Some((s, end)) ==> has_at(bytes@, pos as int, json_text(s@)) && end == pos
            + json_text(s@).len(),
{
    if pos > bytes.len() {
        return None;
    }
    match read_json_string(bytes.as_slice(), pos) {
        None => None,
        Some((s, n)) => {
            let text = string_text(s.as_str());
            if text.len() == n && stands_at(bytes, pos, &text) {
                Some((s, pos + n))
            } else {
                None
            }
        },
    }
}

/// Writes `s` as a JSON string literal.
pub fn write_string(s: &str) -> (out: Vec<u8>)
    ensures
        out@ == json_text(s@),
{
    write_json_string(s)
}

} // verus!
