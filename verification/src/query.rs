//! Rendering a parameter map as a URL query string: keys are fixed ASCII
//! tokens and stand as they are; values are percent-encoded byte for byte.
use crate::params::Params;
use vstd::prelude::*;
use vstd::utf8::encode_utf8;
use vstd::utf8::is_ascii_chars;
use vstd::utf8::is_ascii_chars_encode_utf8;

verus! {

/// A byte that stands for itself in a query value: an ASCII letter or digit,
/// or one of `-` `.` `_` `~`.
pub open spec fn is_unreserved(b: u8) -> bool {
    ||| 0x41 <= b <= 0x5a  // 'A'..'Z'
    ||| 0x61 <= b <= 0x7a  // 'a'..'z'
    ||| 0x30 <= b <= 0x39  // '0'..'9'
    ||| b == 0x2d  // '-'
    ||| b == 0x2e  // '.'
    ||| b == 0x5f  // '_'
    ||| b == 0x7e  // '~'
}

/// The uppercase hexadecimal digit for a nibble.
pub open spec fn hex_digit(n: u8) -> u8
    recommends
        n < 16,
{
    if n < 10 {
        (0x30 + n) as u8
    } else {
        (0x41 + (n - 10)) as u8
    }
}

/// The percent-encoding of one byte.
pub open spec fn pct_byte(b: u8) -> Seq<u8> {
    if is_unreserved(b) {
        seq![b]
    } else {
        seq![0x25u8, hex_digit(b / 16), hex_digit(b % 16)]
    }
}

/// The percent-encoding of a byte sequence.
pub open spec fn pct_bytes(s: Seq<u8>) -> Seq<u8>
    decreases s.len(),
{
    if s.len() == 0 {
        Seq::empty()
    } else {
        pct_bytes(s.drop_last()) + pct_byte(s.last())
    }
}

/// An ASCII key, byte for byte.
pub open spec fn key_bytes(k: Seq<char>) -> Seq<u8> {
    Seq::new(k.len(), |i: int| k[i] as u8)
}

/// One `key=value` pair: the key plain, the value percent-encoded over its
/// UTF-8 bytes.
pub open spec fn pair_bytes(e: (Seq<char>, Seq<char>)) -> Seq<u8> {
    key_bytes(e.0) + seq![0x3du8] + pct_bytes(encode_utf8(e.1))
}

/// All pairs, `&`-joined, in the map's insertion order.
pub open spec fn query_bytes(s: Seq<(Seq<char>, Seq<char>)>) -> Seq<u8>
    decreases s.len(),
{
    if s.len() == 0 {
        Seq::empty()
    } else if s.len() == 1 {
        pair_bytes(s[0])
    } else {
        query_bytes(s.drop_last()) + seq![0x26u8] + pair_bytes(s.last())
    }
}

/// The characters an all-ASCII byte sequence spells.
pub open spec fn ascii_chars_of(b: Seq<u8>) -> Seq<char> {
    Seq::new(b.len(), |i: int| b[i] as char)
}

proof fn lemma_pct_bytes_ascii(s: Seq<u8>)
    ensures
        forall|i: int| 0 <= i < pct_bytes(s).len() ==> #[trigger] pct_bytes(s)[i] < 128,
    decreases s.len(),
{
    if s.len() > 0 {
        lemma_pct_bytes_ascii(s.drop_last());
        let pre = pct_bytes(s.drop_last());
        let b = s.last();
        assert forall|i: int| 0 <= i < pct_bytes(s).len() implies #[trigger] pct_bytes(s)[i]
            < 128 by {
            if i < pre.len() {
                assert(pct_bytes(s)[i] == pre[i]);
            } else {
                assert(pct_bytes(s)[i] == pct_byte(b)[i - pre.len()]);
            }
        }
    }
}

proof fn lemma_pair_bytes_ascii(e: (Seq<char>, Seq<char>))
    requires
        is_ascii_chars(e.0),
    ensures
        forall|i: int| 0 <= i < pair_bytes(e).len() ==> #[trigger] pair_bytes(e)[i] < 128,
{
    lemma_pct_bytes_ascii(encode_utf8(e.1));
    let kb = key_bytes(e.0);
    let vb = pct_bytes(encode_utf8(e.1));
    assert forall|i: int| 0 <= i < pair_bytes(e).len() implies #[trigger] pair_bytes(e)[i]
        < 128 by {
        if i < kb.len() {
            assert(e.0[i] <= '\u{7f}');
            assert(pair_bytes(e)[i] == kb[i]);
        } else if i == kb.len() {
            assert(pair_bytes(e)[i] == 0x3du8);
        } else {
            assert(pair_bytes(e)[i] == vb[i - kb.len() - 1]);
        }
    }
}

proof fn lemma_query_bytes_ascii(s: Seq<(Seq<char>, Seq<char>)>)
    requires
        forall|i: int| 0 <= i < s.len() ==> is_ascii_chars((#[trigger] s[i]).0),
    ensures
        forall|i: int| 0 <= i < query_bytes(s).len() ==> #[trigger] query_bytes(s)[i] < 128,
    decreases s.len(),
{
    if s.len() == 1 {
        lemma_pair_bytes_ascii(s[0]);
    } else if s.len() > 1 {
        lemma_query_bytes_ascii(s.drop_last());
        lemma_pair_bytes_ascii(s.last());
        let pre = query_bytes(s.drop_last());
        let pb = pair_bytes(s.last());
        assert forall|i: int| 0 <= i < query_bytes(s).len() implies #[trigger] query_bytes(s)[i]
            < 128 by {
            if i < pre.len() {
                assert(query_bytes(s)[i] == pre[i]);
            } else if i == pre.len() {
                assert(query_bytes(s)[i] == 0x26u8);
            } else {
                assert(query_bytes(s)[i] == pb[i - pre.len() - 1]);
            }
        }
    }
}

fn hex_digit_exec(n: u8) -> (r: u8)
    requires
        n < 16,
    ensures
        r == hex_digit(n),
{
    if n < 10 {
        0x30 + n
    } else {
        0x41 + (n - 10)
    }
}

fn is_unreserved_exec(b: u8) -> (r: bool)
    ensures
        r == is_unreserved(b),
{
    (0x41 <= b && b <= 0x5a) || (0x61 <= b && b <= 0x7a) || (0x30 <= b && b <= 0x39) || b == 0x2d
        || b == 0x2e || b == 0x5f || b == 0x7e
}

/// Relies on String::from_utf8: ASCII bytes are valid UTF-8 and decode to
/// one character per byte.
#[verifier::external_body]
pub(crate) fn ascii_string(bytes: Vec<u8>) -> (r: String)
    requires
        forall|i: int| 0 <= i < bytes@.len() ==> bytes@[i] < 128,
    ensures
        r@ == ascii_chars_of(bytes@),
{
    String::from_utf8(bytes).unwrap_or_default()
}

/// Append the percent-encoding of `s`'s UTF-8 bytes to `out`.
fn push_pct_bytes(out: &mut Vec<u8>, s: &str)
    ensures
        final(out)@ == old(out)@ + pct_bytes(encode_utf8(s@)),
{
    let bytes = s.as_bytes();
    let n = bytes.len();
    for j in 0..n
        invariant
            out@ == old(out)@ + pct_bytes(bytes@.take(j as int)),
    {
        let b = bytes[j];
        proof {
            assert(bytes@.take(j + 1).drop_last() =~= bytes@.take(j as int));
            assert(bytes@.take(j + 1).last() == b);
        }
        if is_unreserved_exec(b) {
            out.push(b);
        } else {
            out.push(0x25);
            out.push(hex_digit_exec(b / 16));
            out.push(hex_digit_exec(b % 16));
        }
        proof {
            assert(out@ =~= old(out)@ + pct_bytes(bytes@.take(j + 1)));
        }
    }
    proof {
        assert(bytes@.take(n as int) =~= bytes@);
    }
}

/// Append the bytes of the ASCII key `k` to `out`.
fn push_key_bytes(out: &mut Vec<u8>, k: &str)
    requires
        k.is_ascii(),
    ensures
        final(out)@ == old(out)@ + key_bytes(k@),
{
    proof {
        is_ascii_chars_encode_utf8(k@);
    }
    let bytes = k.as_bytes();
    let n = bytes.len();
    for j in 0..n
        invariant
            out@ == old(out)@ + bytes@.take(j as int),
    {
        let b = bytes[j];
        out.push(b);
        proof {
            assert(out@ =~= old(out)@ + bytes@.take(j + 1));
        }
    }
    proof {
        assert(bytes@.take(n as int) =~= bytes@);
        assert(bytes@ =~= key_bytes(k@));
    }
}

/// Render all pairs of `params` as a `&`-joined, `=`-separated query string
/// with percent-encoded values.
pub fn encoded_pairs(params: &Params) -> (r: String)
    requires
        params.wf(),
    ensures
        r@ == ascii_chars_of(query_bytes(params@)),
{
    let mut out: Vec<u8> = Vec::new();
    let n = params.entries.len();
    for i in 0..n
        invariant
            params.wf(),
            out@ == query_bytes(params@.take(i as int)),
    {
        if i > 0 {
            out.push(0x26);
        }
        push_key_bytes(&mut out, self_key(params, i));
        out.push(0x3d);
        push_pct_bytes(&mut out, self_val(params, i));
        proof {
            assert(params@.take(i + 1).drop_last() =~= params@.take(i as int));
            assert(out@ =~= query_bytes(params@.take(i + 1)));
        }
    }
    proof {
        assert(params@.take(n as int) =~= params@);
        lemma_query_bytes_ascii(params@);
    }
    ascii_string(out)
}

/// A request path with a serialized query appended, or the bare path when
/// there is no query, so that no lone `?` is ever sent.
pub fn append_query(base: &str, query: Option<String>) -> (r: String)
    ensures
        match query {
            None => r@ == base@,
            Some(q) => r@ == base@ + "?"@ + q@,
        },
{
    match query {
        None => base.to_owned(),
        Some(q) => base.to_owned().concat("?").concat(q.as_str()),
    }
}

fn self_key(params: &Params, i: usize) -> (r: &str)
    requires
        params.wf(),
        i < params@.len(),
    ensures
        r@ == params@[i as int].0,
        r.is_ascii(),
{
    proof {
        assert(is_ascii_chars(params@[i as int].0));
    }
    params.entries[i].0.as_str()
}

fn self_val(params: &Params, i: usize) -> (r: &str)
    requires
        i < params@.len(),
    ensures
        r@ == params@[i as int].1,
{
    params.entries[i].1.as_str()
}

} // verus!
