//! Wire codec for the messages framed over a tunnel.
//!
//! Every value is written length-prefixed and in a fixed field order:
//! unsigned numbers as base-128 varints, strings as a character count
//! followed by one varint per character, byte buffers as a length followed
//! by the raw bytes, and optional parts behind a presence byte. Decoding a
//! buffer produced by the encoder yields the original message; the round
//! trip is proved below.

use vstd::prelude::*;
use vstd::arithmetic::div_mod::{lemma_fundamental_div_mod, lemma_div_pos_is_pos, lemma_div_is_ordered_by_denominator};

verus! {

/// Little-endian base-128 encoding; every byte but the last has its top bit
/// set.
pub open spec fn spec_enc_varint(n: u64) -> Seq<u8>
    decreases n,
{
    if n < 128 {
        seq![n as u8]
    } else {
        seq![((n % 128) + 128) as u8] + spec_enc_varint(n / 128)
    }
}

/// Reads one varint from the front of `s`; `None` on an empty or truncated
/// buffer or a value that does not fit in 64 bits.
pub open spec fn spec_dec_varint(s: Seq<u8>) -> Option<(u64, Seq<u8>)>
    decreases s.len(),
{
    if s.len() == 0 {
        None
    } else if s[0] < 128 {
        Some((s[0] as u64, s.skip(1)))
    } else {
        match spec_dec_varint(s.skip(1)) {
            None => None,
            Some((hi, rest)) => if hi as int * 128 + (s[0] - 128) <= u64::MAX as int {
                Some(((hi * 128 + ((s[0] - 128) as u64)) as u64, rest))
            } else {
                None
            },
        }
    }
}

/// Decoding a varint undoes encoding it, leaving the trailing bytes.
pub proof fn lemma_varint_round_trip(n: u64, rest: Seq<u8>)
    ensures
        spec_dec_varint(spec_enc_varint(n) + rest) == Some((n, rest)),
    decreases n,
{
    if n < 128 {
        let s = spec_enc_varint(n) + rest;
        assert(s[0] == n as u8);
        assert(s.skip(1) =~= rest);
    } else {
        let b: u8 = ((n % 128) + 128) as u8;
        let s = spec_enc_varint(n) + rest;
        assert(s[0] == b);
        lemma_varint_round_trip(n / 128, rest);
        assert(s.skip(1) =~= spec_enc_varint(n / 128) + rest);
        lemma_fundamental_div_mod(n as int, 128);
        assert((n / 128) as int * 128 + (b - 128) == n as int);
    }
}

/// Writes the varint encoding of `n` onto `out`.
pub fn encode_varint(n: u64, out: &mut Vec<u8>)
    ensures
        final(out)@ == old(out)@ + spec_enc_varint(n),
    decreases n,
{
    if n < 128 {
        out.push(n as u8);
        assert(out@ =~= old(out)@ + spec_enc_varint(n));
    } else {
        out.push(((n % 128) + 128) as u8);
        let ghost mid = out@;
        assert(mid =~= old(out)@ + seq![((n % 128) + 128) as u8]);
        encode_varint(n / 128, out);
        assert(out@ =~= old(out)@ + spec_enc_varint(n));
    }
}

/// Reads one varint from `s` at cursor `i`; returns the value and the new
/// cursor.
pub fn decode_varint(s: &[u8], i: usize) -> (r: Option<(u64, usize)>)
    requires
        i <= s@.len(),
    ensures
        match r {
            Some((v, j)) => {
                &&& i < j <= s@.len()
                &&& spec_dec_varint(s@.skip(i as int)) == Some((v, s@.skip(j as int)))
            },
            None => spec_dec_varint(s@.skip(i as int)) is None,
        },
    decreases s@.len() - i,
{
    if i == s.len() {
        return None;
    }
    let b = s[i];
    assert(s@.skip(i as int)[0] == b);
    if b < 128 {
        assert(s@.skip(i as int).skip(1) =~= s@.skip(i as int + 1));
        Some((b as u64, i + 1))
    } else {
        assert(s@.skip(i as int).skip(1) =~= s@.skip(i as int + 1));
        match decode_varint(s, i + 1) {
            None => None,
            Some((hi, j)) => {
                let lo = (b - 128) as u64;
                if hi <= (u64::MAX - lo) / 128 {
                    assert(hi as int * 128 + lo <= u64::MAX as int) by {
                        lemma_fundamental_div_mod((u64::MAX - lo) as int, 128);
                    };
                    Some((hi * 128 + lo, j))
                } else {
                    assert(hi as int * 128 + lo > u64::MAX as int) by {
                        lemma_fundamental_div_mod((u64::MAX - lo) as int, 128);
                    };
                    None
                }
            },
        }
    }
}

/// A code point that `char` can hold: not a surrogate, at most 0x10FFFF.
pub open spec fn is_scalar_value(v: u64) -> bool {
    v <= 0xD7FF || (0xE000 <= v && v <= 0x10FFFF)
}

/// A character is one varint of its code point.
pub open spec fn spec_enc_char(c: char) -> Seq<u8> {
    spec_enc_varint(c as u64)
}

/// Reads one character; `None` when the varint fails or the value is no
/// Unicode scalar.
pub open spec fn spec_dec_char(s: Seq<u8>) -> Option<(char, Seq<u8>)> {
    match spec_dec_varint(s) {
        None => None,
        Some((v, rest)) => if is_scalar_value(v) {
            Some((v as char, rest))
        } else {
            None
        },
    }
}

/// A character sequence, one encoded character after the other.
pub open spec fn spec_enc_chars(cs: Seq<char>) -> Seq<u8>
    decreases cs.len(),
{
    if cs.len() == 0 {
        Seq::empty()
    } else {
        spec_enc_char(cs[0]) + spec_enc_chars(cs.skip(1))
    }
}

/// Reads `n` characters onto `acc`.
pub open spec fn spec_dec_chars(n: nat, s: Seq<u8>, acc: Seq<char>) -> Option<(Seq<char>, Seq<u8>)>
    decreases n,
{
    if n == 0 {
        Some((acc, s))
    } else {
        match spec_dec_char(s) {
            None => None,
            Some((c, rest)) => spec_dec_chars((n - 1) as nat, rest, acc.push(c)),
        }
    }
}

/// A string is its character count, then its characters.
pub open spec fn spec_enc_string(sv: Seq<char>) -> Seq<u8> {
    spec_enc_varint(sv.len() as u64) + spec_enc_chars(sv)
}

/// Reads one string.
pub open spec fn spec_dec_string(s: Seq<u8>) -> Option<(Seq<char>, Seq<u8>)> {
    match spec_dec_varint(s) {
        None => None,
        Some((n, rest)) => spec_dec_chars(n as nat, rest, Seq::empty()),
    }
}

/// Decoding one character undoes encoding it.
pub proof fn lemma_char_round_trip(c: char, rest: Seq<u8>)
    ensures
        spec_dec_char(spec_enc_char(c) + rest) == Some((c, rest)),
{
    lemma_varint_round_trip(c as u64, rest);
}

/// Decoding `cs.len()` characters undoes encoding `cs`, extending `acc`.
pub proof fn lemma_chars_round_trip(cs: Seq<char>, rest: Seq<u8>, acc: Seq<char>)
    ensures
        spec_dec_chars(cs.len(), spec_enc_chars(cs) + rest, acc) == Some((acc + cs, rest)),
    decreases cs.len(),
{
    if cs.len() == 0 {
        assert(spec_enc_chars(cs) + rest =~= rest);
        assert(acc + cs =~= acc);
    } else {
        let tail = cs.skip(1);
        assert(spec_enc_chars(cs) + rest =~= spec_enc_char(cs[0]) + (spec_enc_chars(tail) + rest));
        lemma_char_round_trip(cs[0], spec_enc_chars(tail) + rest);
        lemma_chars_round_trip(tail, rest, acc.push(cs[0]));
        assert(acc.push(cs[0]) + tail =~= acc + cs);
    }
}

/// Decoding a string undoes encoding it. The character count must fit the
/// length prefix.
pub proof fn lemma_string_round_trip(sv: Seq<char>, rest: Seq<u8>)
    requires
        sv.len() <= u64::MAX,
    ensures
        spec_dec_string(spec_enc_string(sv) + rest) == Some((sv, rest)),
{
    let n: u64 = sv.len() as u64;
    assert(spec_enc_string(sv) + rest =~= spec_enc_varint(n) + (spec_enc_chars(sv) + rest));
    lemma_varint_round_trip(n, spec_enc_chars(sv) + rest);
    lemma_chars_round_trip(sv, rest, Seq::empty());
    assert(Seq::empty() + sv =~= sv);
}

/// A byte buffer is its length, then the raw bytes.
pub open spec fn spec_enc_bytes(b: Seq<u8>) -> Seq<u8> {
    spec_enc_varint(b.len() as u64) + b
}

/// Reads one byte buffer.
pub open spec fn spec_dec_bytes(s: Seq<u8>) -> Option<(Seq<u8>, Seq<u8>)> {
    match spec_dec_varint(s) {
        None => None,
        Some((n, rest)) => if n <= rest.len() {
            Some((rest.take(n as int), rest.skip(n as int)))
        } else {
            None
        },
    }
}

/// Decoding a byte buffer undoes encoding it.
pub proof fn lemma_bytes_round_trip(b: Seq<u8>, rest: Seq<u8>)
    requires
        b.len() <= u64::MAX,
    ensures
        spec_dec_bytes(spec_enc_bytes(b) + rest) == Some((b, rest)),
{
    let n: u64 = b.len() as u64;
    assert(spec_enc_bytes(b) + rest =~= spec_enc_varint(n) + (b + rest));
    lemma_varint_round_trip(n, b + rest);
    assert((b + rest).take(n as int) =~= b);
    assert((b + rest).skip(n as int) =~= rest);
}

/// Encoding a concatenation encodes the parts one after the other.
pub proof fn lemma_enc_chars_concat(a: Seq<char>, b: Seq<char>)
    ensures
        spec_enc_chars(a + b) == spec_enc_chars(a) + spec_enc_chars(b),
    decreases a.len(),
{
    if a.len() == 0 {
        assert(a + b =~= b);
        assert(spec_enc_chars(a) + spec_enc_chars(b) =~= spec_enc_chars(b));
    } else {
        assert((a + b)[0] == a[0]);
        assert((a + b).skip(1) =~= a.skip(1) + b);
        lemma_enc_chars_concat(a.skip(1), b);
        assert(spec_enc_chars(a + b) =~= spec_enc_chars(a) + spec_enc_chars(b));
    }
}

/// Relies on std's `String::push`: appends exactly one character.
#[verifier::external_body]
fn push_char(s: &mut String, c: char)
    ensures
        final(s)@ == old(s)@.push(c),
{
    s.push(c);
}

/// Relies on std's `char::from_u32`: `Some` of the character with that code
/// point exactly when the value is a Unicode scalar.
#[verifier::external_body]
fn char_from_u32(v: u32) -> (r: Option<char>)
    ensures
        is_scalar_value(v as u64) ==> r == Some(v as char),
        !is_scalar_value(v as u64) ==> r is None,
{
    char::from_u32(v)
}

/// Writes the characters of `s` onto `out`.
pub fn encode_chars(s: &str, out: &mut Vec<u8>)
    ensures
        final(out)@ == old(out)@ + spec_enc_chars(s@),
{
    let n = s.unicode_len();
    assert(s@.take(0int) =~= Seq::<char>::empty());
    for i in 0..n
        invariant
            n == s@.len(),
            out@ == old(out)@ + spec_enc_chars(s@.take(i as int)),
    {
        let c = s.get_char(i);
        let ghost pre = s@.take(i as int);
        encode_varint(c as u64, out);
        proof {
            assert(s@.take(i + 1int) =~= pre + seq![c]);
            lemma_enc_chars_concat(pre, seq![c]);
            assert(seq![c].skip(1) =~= Seq::<char>::empty());
            assert(spec_enc_chars(Seq::<char>::empty()) =~= Seq::<u8>::empty());
            assert(spec_enc_chars(seq![c]) =~= spec_enc_char(c) + spec_enc_chars(
                seq![c].skip(1),
            ));
            assert(spec_enc_chars(seq![c]) =~= spec_enc_char(c));
            assert(out@ =~= old(out)@ + spec_enc_chars(s@.take(i + 1int)));
        }
    }
    assert(s@.take(n as int) =~= s@);
}

/// Writes the string `s` onto `out`: character count, then characters.
pub fn encode_string(s: &str, out: &mut Vec<u8>)
    ensures
        final(out)@ == old(out)@ + spec_enc_string(s@),
{
    let n = s.unicode_len();
    encode_varint(n as u64, out);
    encode_chars(s, out);
    assert(out@ =~= old(out)@ + spec_enc_string(s@));
}

/// Writes the byte buffer `b` onto `out`: length, then raw bytes.
pub fn encode_bytes(b: &[u8], out: &mut Vec<u8>)
    ensures
        final(out)@ == old(out)@ + spec_enc_bytes(b@),
{
    let n = b.len();
    encode_varint(n as u64, out);
    assert(b@.take(0int) =~= Seq::<u8>::empty());
    for i in 0..n
        invariant
            n == b@.len(),
            out@ == old(out)@ + spec_enc_varint(b@.len() as u64) + b@.take(i as int),
    {
        out.push(b[i]);
        assert(b@.take(i + 1int) =~= b@.take(i as int).push(b@[i as int]));
    }
    assert(b@.take(n as int) =~= b@);
    assert(out@ =~= old(out)@ + spec_enc_bytes(b@));
}

/// Reads `n` characters from `s` at cursor `i` onto `acc`.
fn decode_chars(s: &[u8], i: usize, n: u64, acc: String) -> (r: Option<(String, usize)>)
    requires
        i <= s@.len(),
    ensures
        match r {
            Some((st, j)) => {
                &&& i <= j <= s@.len()
                &&& spec_dec_chars(n as nat, s@.skip(i as int), acc@) == Some((st@, s@.skip(
                    j as int,
                )))
            },
            None => spec_dec_chars(n as nat, s@.skip(i as int), acc@) is None,
        },
    decreases n,
{
    if n == 0 {
        return Some((acc, i));
    }
    match decode_varint(s, i) {
        None => None,
        Some((v, j)) => {
            if v <= 0x10FFFF {
                assert(v as u32 as u64 == v) by (bit_vector)
                    requires
                        v <= 0x10FFFF,
                ;
                match char_from_u32(v as u32) {
                    Some(c) => {
                        let mut acc2 = acc;
                        push_char(&mut acc2, c);
                        decode_chars(s, j, n - 1, acc2)
                    },
                    None => None,
                }
            } else {
                None
            }
        },
    }
}

/// Reads one string from `s` at cursor `i`.
pub fn decode_string(s: &[u8], i: usize) -> (r: Option<(String, usize)>)
    requires
        i <= s@.len(),
    ensures
        match r {
            Some((st, j)) => {
                &&& i <= j <= s@.len()
                &&& spec_dec_string(s@.skip(i as int)) == Some((st@, s@.skip(j as int)))
            },
            None => spec_dec_string(s@.skip(i as int)) is None,
        },
{
    match decode_varint(s, i) {
        None => None,
        Some((n, j)) => decode_chars(s, j, n, String::new()),
    }
}

/// Reads one byte buffer from `s` at cursor `i`.
pub fn decode_bytes(s: &[u8], i: usize) -> (r: Option<(Vec<u8>, usize)>)
    requires
        i <= s@.len(),
    ensures
        match r {
            Some((b, j)) => {
                &&& i <= j <= s@.len()
                &&& spec_dec_bytes(s@.skip(i as int)) == Some((b@, s@.skip(j as int)))
            },
            None => spec_dec_bytes(s@.skip(i as int)) is None,
        },
{
    match decode_varint(s, i) {
        None => None,
        Some((n, j)) => {
            if n > (s.len() - j) as u64 {
                return None;
            }
            let len = n as usize;
            let slen = s.len();
            let mut b: Vec<u8> = Vec::new();
            assert(b@ =~= s@.subrange(j as int, j as int));
            for t in 0..len
                invariant
                    j + len <= slen == s@.len(),
                    b@ == s@.subrange(j as int, j + t as int),
            {
                b.push(s[j + t]);
                assert(b@ =~= s@.subrange(j as int, j + t + 1int));
            }
            proof {
                let rest = s@.skip(j as int);
                assert(rest.take(n as int) =~= s@.subrange(j as int, j + len as int));
                assert(rest.skip(n as int) =~= s@.skip(j + len as int));
            }
            Some((b, j + len))
        },
    }
}

/// A name/value pair: two strings.
pub open spec fn spec_enc_pair(p: (Seq<char>, Seq<char>)) -> Seq<u8> {
    spec_enc_string(p.0) + spec_enc_string(p.1)
}

/// Reads one name/value pair.
pub open spec fn spec_dec_pair(s: Seq<u8>) -> Option<((Seq<char>, Seq<char>), Seq<u8>)> {
    match spec_dec_string(s) {
        None => None,
        Some((k, s1)) => match spec_dec_string(s1) {
            None => None,
            Some((v, s2)) => Some(((k, v), s2)),
        },
    }
}

/// A pair sequence, one encoded pair after the other.
pub open spec fn spec_enc_pairs(h: Seq<(Seq<char>, Seq<char>)>) -> Seq<u8>
    decreases h.len(),
{
    if h.len() == 0 {
        Seq::empty()
    } else {
        spec_enc_pair(h[0]) + spec_enc_pairs(h.skip(1))
    }
}

/// Reads `n` pairs onto `acc`.
pub open spec fn spec_dec_pairs(
    n: nat,
    s: Seq<u8>,
    acc: Seq<(Seq<char>, Seq<char>)>,
) -> Option<(Seq<(Seq<char>, Seq<char>)>, Seq<u8>)>
    decreases n,
{
    if n == 0 {
        Some((acc, s))
    } else {
        match spec_dec_pair(s) {
            None => None,
            Some((p, rest)) => spec_dec_pairs((n - 1) as nat, rest, acc.push(p)),
        }
    }
}

/// A header map: the pair count, then its pairs in order.
pub open spec fn spec_enc_headers(h: Seq<(Seq<char>, Seq<char>)>) -> Seq<u8> {
    spec_enc_varint(h.len() as u64) + spec_enc_pairs(h)
}

/// Reads one header map.
pub open spec fn spec_dec_headers(s: Seq<u8>) -> Option<(Seq<(Seq<char>, Seq<char>)>, Seq<u8>)> {
    match spec_dec_varint(s) {
        None => None,
        Some((n, rest)) => spec_dec_pairs(n as nat, rest, Seq::empty()),
    }
}

/// Every name and value of the map fits the length prefix.
pub open spec fn headers_bounded(h: Seq<(Seq<char>, Seq<char>)>) -> bool {
    forall|i: int|
        0 <= i < h.len() ==> #[trigger] h[i].0.len() <= u64::MAX && h[i].1.len() <= u64::MAX
}

/// Decoding one pair undoes encoding it.
pub proof fn lemma_pair_round_trip(p: (Seq<char>, Seq<char>), rest: Seq<u8>)
    requires
        p.0.len() <= u64::MAX,
        p.1.len() <= u64::MAX,
    ensures
        spec_dec_pair(spec_enc_pair(p) + rest) == Some((p, rest)),
{
    assert(spec_enc_pair(p) + rest =~= spec_enc_string(p.0) + (spec_enc_string(p.1) + rest));
    lemma_string_round_trip(p.0, spec_enc_string(p.1) + rest);
    lemma_string_round_trip(p.1, rest);
}

/// Decoding `h.len()` pairs undoes encoding `h`, extending `acc`.
pub proof fn lemma_pairs_round_trip(
    h: Seq<(Seq<char>, Seq<char>)>,
    rest: Seq<u8>,
    acc: Seq<(Seq<char>, Seq<char>)>,
)
    requires
        headers_bounded(h),
    ensures
        spec_dec_pairs(h.len(), spec_enc_pairs(h) + rest, acc) == Some((acc + h, rest)),
    decreases h.len(),
{
    if h.len() == 0 {
        assert(spec_enc_pairs(h) + rest =~= rest);
        assert(acc + h =~= acc);
    } else {
        let tail = h.skip(1);
        assert(spec_enc_pairs(h) + rest =~= spec_enc_pair(h[0]) + (spec_enc_pairs(tail) + rest));
        lemma_pair_round_trip(h[0], spec_enc_pairs(tail) + rest);
        assert(headers_bounded(tail)) by {
            assert(forall|i: int| 0 <= i < tail.len() ==> tail[i] == h[i + 1]);
        };
        lemma_pairs_round_trip(tail, rest, acc.push(h[0]));
        assert(acc.push(h[0]) + tail =~= acc + h);
    }
}

/// Decoding a header map undoes encoding it.
pub proof fn lemma_headers_round_trip(h: Seq<(Seq<char>, Seq<char>)>, rest: Seq<u8>)
    requires
        headers_bounded(h),
        h.len() <= u64::MAX,
    ensures
        spec_dec_headers(spec_enc_headers(h) + rest) == Some((h, rest)),
{
    let n: u64 = h.len() as u64;
    assert(spec_enc_headers(h) + rest =~= spec_enc_varint(n) + (spec_enc_pairs(h) + rest));
    lemma_varint_round_trip(n, spec_enc_pairs(h) + rest);
    lemma_pairs_round_trip(h, rest, Seq::empty());
    assert(Seq::empty() + h =~= h);
}

/// Encoding a pair concatenation encodes the parts one after the other.
pub proof fn lemma_enc_pairs_concat(a: Seq<(Seq<char>, Seq<char>)>, b: Seq<(Seq<char>, Seq<char>)>)
    ensures
        spec_enc_pairs(a + b) == spec_enc_pairs(a) + spec_enc_pairs(b),
    decreases a.len(),
{
    if a.len() == 0 {
        assert(a + b =~= b);
        assert(spec_enc_pairs(a) + spec_enc_pairs(b) =~= spec_enc_pairs(b));
    } else {
        assert((a + b)[0] == a[0]);
        assert((a + b).skip(1) =~= a.skip(1) + b);
        lemma_enc_pairs_concat(a.skip(1), b);
        assert(spec_enc_pairs(a + b) =~= spec_enc_pairs(a) + spec_enc_pairs(b));
    }
}

/// A boolean: one byte, zero or one.
pub open spec fn spec_enc_bool(b: bool) -> Seq<u8> {
    seq![if b { 1u8 } else { 0u8 }]
}

/// Reads one boolean; any other byte is refused.
pub open spec fn spec_dec_bool(s: Seq<u8>) -> Option<(bool, Seq<u8>)> {
    if s.len() == 0 {
        None
    } else if s[0] == 0 {
        Some((false, s.skip(1)))
    } else if s[0] == 1 {
        Some((true, s.skip(1)))
    } else {
        None
    }
}

/// Decoding a boolean undoes encoding it.
pub proof fn lemma_bool_round_trip(b: bool, rest: Seq<u8>)
    ensures
        spec_dec_bool(spec_enc_bool(b) + rest) == Some((b, rest)),
{
    let s = spec_enc_bool(b) + rest;
    assert(s.skip(1) =~= rest);
}

/// The byte that stands for each stream shape.
pub open spec fn stream_type_byte(t: crate::messages::StreamType) -> u8 {
    match t {
        crate::messages::StreamType::Unary => 0,
        crate::messages::StreamType::ClientStreaming => 1,
        crate::messages::StreamType::ServerStreaming => 2,
        crate::messages::StreamType::BidirectionalStreaming => 3,
    }
}

/// A stream shape: its one byte.
pub open spec fn spec_enc_stream_type(t: crate::messages::StreamType) -> Seq<u8> {
    seq![stream_type_byte(t)]
}

/// Reads one stream shape.
pub open spec fn spec_dec_stream_type(s: Seq<u8>) -> Option<(
    crate::messages::StreamType,
    Seq<u8>,
)> {
    if s.len() == 0 {
        None
    } else if s[0] == 0 {
        Some((crate::messages::StreamType::Unary, s.skip(1)))
    } else if s[0] == 1 {
        Some((crate::messages::StreamType::ClientStreaming, s.skip(1)))
    } else if s[0] == 2 {
        Some((crate::messages::StreamType::ServerStreaming, s.skip(1)))
    } else if s[0] == 3 {
        Some((crate::messages::StreamType::BidirectionalStreaming, s.skip(1)))
    } else {
        None
    }
}

/// Decoding a stream shape undoes encoding it.
pub proof fn lemma_stream_type_round_trip(t: crate::messages::StreamType, rest: Seq<u8>)
    ensures
        spec_dec_stream_type(spec_enc_stream_type(t) + rest) == Some((t, rest)),
{
    let s = spec_enc_stream_type(t) + rest;
    assert(s.skip(1) =~= rest);
}

/// An optional number: a presence byte, then the varint when present.
pub open spec fn spec_enc_opt_u64(o: Option<u64>) -> Seq<u8> {
    match o {
        None => seq![0u8],
        Some(v) => seq![1u8] + spec_enc_varint(v),
    }
}

/// Reads one optional number.
pub open spec fn spec_dec_opt_u64(s: Seq<u8>) -> Option<(Option<u64>, Seq<u8>)> {
    match spec_dec_bool(s) {
        None => None,
        Some((false, rest)) => Some((None, rest)),
        Some((true, rest)) => match spec_dec_varint(rest) {
            None => None,
            Some((v, rest2)) => Some((Some(v), rest2)),
        },
    }
}

/// Decoding an optional number undoes encoding it.
pub proof fn lemma_opt_u64_round_trip(o: Option<u64>, rest: Seq<u8>)
    ensures
        spec_dec_opt_u64(spec_enc_opt_u64(o) + rest) == Some((o, rest)),
{
    match o {
        None => {
            lemma_bool_round_trip(false, rest);
            assert(spec_enc_opt_u64(o) + rest =~= spec_enc_bool(false) + rest);
        },
        Some(v) => {
            assert(spec_enc_opt_u64(o) + rest =~= spec_enc_bool(true) + (spec_enc_varint(v)
                + rest));
            lemma_bool_round_trip(true, spec_enc_varint(v) + rest);
            lemma_varint_round_trip(v, rest);
        },
    }
}

/// Request-side stream framing: shape, end flag, sequence number, chunk size.
pub open spec fn spec_enc_si(si: crate::messages::StreamingInfo) -> Seq<u8> {
    spec_enc_stream_type(si.stream_type) + spec_enc_bool(si.is_stream_end) + spec_enc_varint(
        si.sequence_number,
    ) + spec_enc_varint(si.chunk_size as u64)
}

/// Reads one request-side stream framing.
pub open spec fn spec_dec_si(s: Seq<u8>) -> Option<(crate::messages::StreamingInfo, Seq<u8>)> {
    match spec_dec_stream_type(s) {
        None => None,
        Some((t, s1)) => match spec_dec_bool(s1) {
            None => None,
            Some((e, s2)) => match spec_dec_varint(s2) {
                None => None,
                Some((q, s3)) => match spec_dec_varint(s3) {
                    None => None,
                    Some((c, s4)) => if c <= u32::MAX as u64 {
                        Some(
                            (
                                crate::messages::StreamingInfo {
                                    stream_type: t,
                                    is_stream_end: e,
                                    sequence_number: q,
                                    chunk_size: c as u32,
                                },
                                s4,
                            ),
                        )
                    } else {
                        None
                    },
                },
            },
        },
    }
}

/// Decoding a stream framing undoes encoding it.
pub proof fn lemma_si_round_trip(si: crate::messages::StreamingInfo, rest: Seq<u8>)
    ensures
        spec_dec_si(spec_enc_si(si) + rest) == Some((si, rest)),
{
    let a2 = spec_enc_bool(si.is_stream_end);
    let a3 = spec_enc_varint(si.sequence_number);
    let a4 = spec_enc_varint(si.chunk_size as u64);
    assert(spec_enc_si(si) + rest =~= spec_enc_stream_type(si.stream_type) + (a2 + (a3 + (a4
        + rest))));
    lemma_stream_type_round_trip(si.stream_type, a2 + (a3 + (a4 + rest)));
    lemma_bool_round_trip(si.is_stream_end, a3 + (a4 + rest));
    lemma_varint_round_trip(si.sequence_number, a4 + rest);
    lemma_varint_round_trip(si.chunk_size as u64, rest);
}

/// Optional request-side framing behind a presence byte.
pub open spec fn spec_enc_opt_si(o: Option<crate::messages::StreamingInfo>) -> Seq<u8> {
    match o {
        None => seq![0u8],
        Some(si) => seq![1u8] + spec_enc_si(si),
    }
}

/// Reads one optional request-side framing.
pub open spec fn spec_dec_opt_si(s: Seq<u8>) -> Option<(
    Option<crate::messages::StreamingInfo>,
    Seq<u8>,
)> {
    match spec_dec_bool(s) {
        None => None,
        Some((false, rest)) => Some((None, rest)),
        Some((true, rest)) => match spec_dec_si(rest) {
            None => None,
            Some((si, rest2)) => Some((Some(si), rest2)),
        },
    }
}

/// Decoding an optional framing undoes encoding it.
pub proof fn lemma_opt_si_round_trip(o: Option<crate::messages::StreamingInfo>, rest: Seq<u8>)
    ensures
        spec_dec_opt_si(spec_enc_opt_si(o) + rest) == Some((o, rest)),
{
    match o {
        None => {
            lemma_bool_round_trip(false, rest);
            assert(spec_enc_opt_si(o) + rest =~= spec_enc_bool(false) + rest);
        },
        Some(si) => {
            assert(spec_enc_opt_si(o) + rest =~= spec_enc_bool(true) + (spec_enc_si(si) + rest));
            lemma_bool_round_trip(true, spec_enc_si(si) + rest);
            lemma_si_round_trip(si, rest);
        },
    }
}

/// Response-side chunk framing: streamed flag, chunk index, final flag,
/// chunk size, optional total size.
pub open spec fn spec_enc_rsi(r: crate::messages::ResponseStreamInfo) -> Seq<u8> {
    spec_enc_bool(r.is_streamed) + spec_enc_varint(r.chunk_index) + spec_enc_bool(r.is_final_chunk)
        + spec_enc_varint(r.chunk_size as u64) + spec_enc_opt_u64(r.total_size)
}

/// Reads one response-side chunk framing.
pub open spec fn spec_dec_rsi(s: Seq<u8>) -> Option<(
    crate::messages::ResponseStreamInfo,
    Seq<u8>,
)> {
    match spec_dec_bool(s) {
        None => None,
        Some((st, s1)) => match spec_dec_varint(s1) {
            None => None,
            Some((ci, s2)) => match spec_dec_bool(s2) {
                None => None,
                Some((fc, s3)) => match spec_dec_varint(s3) {
                    None => None,
                    Some((c, s4)) => if c <= u32::MAX as u64 {
                        match spec_dec_opt_u64(s4) {
                            None => None,
                            Some((ts, s5)) => Some(
                                (
                                    crate::messages::ResponseStreamInfo {
                                        is_streamed: st,
                                        chunk_index: ci,
                                        is_final_chunk: fc,
                                        chunk_size: c as u32,
                                        total_size: ts,
                                    },
                                    s5,
                                ),
                            ),
                        }
                    } else {
                        None
                    },
                },
            },
        },
    }
}

/// Decoding a chunk framing undoes encoding it.
pub proof fn lemma_rsi_round_trip(r: crate::messages::ResponseStreamInfo, rest: Seq<u8>)
    ensures
        spec_dec_rsi(spec_enc_rsi(r) + rest) == Some((r, rest)),
{
    let a2 = spec_enc_varint(r.chunk_index);
    let a3 = spec_enc_bool(r.is_final_chunk);
    let a4 = spec_enc_varint(r.chunk_size as u64);
    let a5 = spec_enc_opt_u64(r.total_size);
    assert(spec_enc_rsi(r) + rest =~= spec_enc_bool(r.is_streamed) + (a2 + (a3 + (a4 + (a5
        + rest)))));
    lemma_bool_round_trip(r.is_streamed, a2 + (a3 + (a4 + (a5 + rest))));
    lemma_varint_round_trip(r.chunk_index, a3 + (a4 + (a5 + rest)));
    lemma_bool_round_trip(r.is_final_chunk, a4 + (a5 + rest));
    lemma_varint_round_trip(r.chunk_size as u64, a5 + rest);
    lemma_opt_u64_round_trip(r.total_size, rest);
}

/// Optional response-side framing behind a presence byte.
pub open spec fn spec_enc_opt_rsi(o: Option<crate::messages::ResponseStreamInfo>) -> Seq<u8> {
    match o {
        None => seq![0u8],
        Some(r) => seq![1u8] + spec_enc_rsi(r),
    }
}

/// Reads one optional response-side framing.
pub open spec fn spec_dec_opt_rsi(s: Seq<u8>) -> Option<(
    Option<crate::messages::ResponseStreamInfo>,
    Seq<u8>,
)> {
    match spec_dec_bool(s) {
        None => None,
        Some((false, rest)) => Some((None, rest)),
        Some((true, rest)) => match spec_dec_rsi(rest) {
            None => None,
            Some((r, rest2)) => Some((Some(r), rest2)),
        },
    }
}

/// Decoding an optional chunk framing undoes encoding it.
pub proof fn lemma_opt_rsi_round_trip(
    o: Option<crate::messages::ResponseStreamInfo>,
    rest: Seq<u8>,
)
    ensures
        spec_dec_opt_rsi(spec_enc_opt_rsi(o) + rest) == Some((o, rest)),
{
    match o {
        None => {
            lemma_bool_round_trip(false, rest);
            assert(spec_enc_opt_rsi(o) + rest =~= spec_enc_bool(false) + rest);
        },
        Some(r) => {
            assert(spec_enc_opt_rsi(o) + rest =~= spec_enc_bool(true) + (spec_enc_rsi(r) + rest));
            lemma_bool_round_trip(true, spec_enc_rsi(r) + rest);
            lemma_rsi_round_trip(r, rest);
        },
    }
}

/// Every variable-length part of the request fits its length prefix. These
/// bounds hold of any value built in a real process.
pub open spec fn request_bounded(m: crate::messages::ForwardRequestView) -> bool {
    &&& m.request_id.len() <= u64::MAX
    &&& m.method_path.len() <= u64::MAX
    &&& m.headers.len() <= u64::MAX
    &&& headers_bounded(m.headers)
    &&& m.payload.len() <= u64::MAX
}

/// A `ForwardRequest`: id, path, headers, payload, timeout, stream framing.
pub open spec fn spec_enc_request(m: crate::messages::ForwardRequestView) -> Seq<u8> {
    spec_enc_string(m.request_id) + spec_enc_string(m.method_path) + spec_enc_headers(m.headers)
        + spec_enc_bytes(m.payload) + spec_enc_varint(m.timeout_seconds as u64) + spec_enc_opt_si(
        m.streaming_info,
    )
}

/// Reads one `ForwardRequest` from the front of `s`.
pub open spec fn spec_dec_request(s: Seq<u8>) -> Option<(
    crate::messages::ForwardRequestView,
    Seq<u8>,
)> {
    match spec_dec_string(s) {
        None => None,
        Some((rid, s1)) => match spec_dec_string(s1) {
            None => None,
            Some((mp, s2)) => match spec_dec_headers(s2) {
                None => None,
                Some((h, s3)) => match spec_dec_bytes(s3) {
                    None => None,
                    Some((pl, s4)) => match spec_dec_varint(s4) {
                        None => None,
                        Some((to, s5)) => if to <= u32::MAX as u64 {
                            match spec_dec_opt_si(s5) {
                                None => None,
                                Some((si, s6)) => Some(
                                    (
                                        crate::messages::ForwardRequestView {
                                            request_id: rid,
                                            method_path: mp,
                                            headers: h,
                                            payload: pl,
                                            timeout_seconds: to as u32,
                                            streaming_info: si,
                                        },
                                        s6,
                                    ),
                                ),
                            }
                        } else {
                            None
                        },
                    },
                },
            },
        },
    }
}

/// Decodes a whole buffer as one `ForwardRequest`; trailing bytes are
/// refused.
pub open spec fn spec_decode_request(s: Seq<u8>) -> Option<crate::messages::ForwardRequestView> {
    match spec_dec_request(s) {
        None => None,
        Some((m, rest)) => if rest.len() == 0 {
            Some(m)
        } else {
            None
        },
    }
}

/// Decoding an encoded `ForwardRequest` gives the request back: the codec
/// round trip is the identity.
pub proof fn lemma_request_round_trip(m: crate::messages::ForwardRequestView)
    requires
        request_bounded(m),
    ensures
        spec_decode_request(spec_enc_request(m)) == Some(m),
{
    let a2 = spec_enc_string(m.method_path);
    let a3 = spec_enc_headers(m.headers);
    let a4 = spec_enc_bytes(m.payload);
    let a5 = spec_enc_varint(m.timeout_seconds as u64);
    let a6 = spec_enc_opt_si(m.streaming_info);
    let empty = Seq::<u8>::empty();
    assert(spec_enc_request(m) =~= spec_enc_string(m.request_id) + (a2 + (a3 + (a4 + (a5 + (a6
        + empty))))));
    lemma_string_round_trip(m.request_id, a2 + (a3 + (a4 + (a5 + (a6 + empty)))));
    lemma_string_round_trip(m.method_path, a3 + (a4 + (a5 + (a6 + empty))));
    lemma_headers_round_trip(m.headers, a4 + (a5 + (a6 + empty)));
    lemma_bytes_round_trip(m.payload, a5 + (a6 + empty));
    lemma_varint_round_trip(m.timeout_seconds as u64, a6 + empty);
    assert(a6 + empty =~= a6);
    lemma_opt_si_round_trip(m.streaming_info, empty);
    match spec_dec_request(spec_enc_request(m)) {
        None => {
            assert(false);
        },
        Some((m2, rest)) => {
            assert(rest.len() == 0);
            assert(m2 =~= m);
        },
    }
}

/// Every variable-length part of the response fits its length prefix.
pub open spec fn response_bounded(m: crate::messages::ForwardResponseView) -> bool {
    &&& m.request_id.len() <= u64::MAX
    &&& m.headers.len() <= u64::MAX
    &&& headers_bounded(m.headers)
    &&& m.payload.len() <= u64::MAX
    &&& m.error_message.len() <= u64::MAX
}

/// A `ForwardResponse`: id, status, headers, payload, error message, both
/// stream framings.
pub open spec fn spec_enc_response(m: crate::messages::ForwardResponseView) -> Seq<u8> {
    spec_enc_string(m.request_id) + spec_enc_varint(m.status_code as u64) + spec_enc_headers(
        m.headers,
    ) + spec_enc_bytes(m.payload) + spec_enc_string(m.error_message) + spec_enc_opt_si(
        m.streaming_info,
    ) + spec_enc_opt_rsi(m.response_stream_info)
}

/// Reads one `ForwardResponse` from the front of `s`.
pub open spec fn spec_dec_response(s: Seq<u8>) -> Option<(
    crate::messages::ForwardResponseView,
    Seq<u8>,
)> {
    match spec_dec_string(s) {
        None => None,
        Some((rid, s1)) => match spec_dec_varint(s1) {
            None => None,
            Some((sc, s2)) => if sc <= u32::MAX as u64 {
                match spec_dec_headers(s2) {
                    None => None,
                    Some((h, s3)) => match spec_dec_bytes(s3) {
                        None => None,
                        Some((pl, s4)) => match spec_dec_string(s4) {
                            None => None,
                            Some((em, s5)) => match spec_dec_opt_si(s5) {
                                None => None,
                                Some((si, s6)) => match spec_dec_opt_rsi(s6) {
                                    None => None,
                                    Some((ri, s7)) => Some(
                                        (
                                            crate::messages::ForwardResponseView {
                                                request_id: rid,
                                                status_code: sc as u32,
                                                headers: h,
                                                payload: pl,
                                                error_message: em,
                                                streaming_info: si,
                                                response_stream_info: ri,
                                            },
                                            s7,
                                        ),
                                    ),
                                },
                            },
                        },
                    },
                }
            } else {
                None
            },
        },
    }
}

/// Decodes a whole buffer as one `ForwardResponse`; trailing bytes are
/// refused.
pub open spec fn spec_decode_response(s: Seq<u8>) -> Option<crate::messages::ForwardResponseView> {
    match spec_dec_response(s) {
        None => None,
        Some((m, rest)) => if rest.len() == 0 {
            Some(m)
        } else {
            None
        },
    }
}

/// Decoding an encoded `ForwardResponse` gives the response back: the codec
/// round trip is the identity.
pub proof fn lemma_response_round_trip(m: crate::messages::ForwardResponseView)
    requires
        response_bounded(m),
    ensures
        spec_decode_response(spec_enc_response(m)) == Some(m),
{
    let a2 = spec_enc_varint(m.status_code as u64);
    let a3 = spec_enc_headers(m.headers);
    let a4 = spec_enc_bytes(m.payload);
    let a5 = spec_enc_string(m.error_message);
    let a6 = spec_enc_opt_si(m.streaming_info);
    let a7 = spec_enc_opt_rsi(m.response_stream_info);
    let empty = Seq::<u8>::empty();
    assert(spec_enc_response(m) =~= spec_enc_string(m.request_id) + (a2 + (a3 + (a4 + (a5 + (a6 + (
    a7 + empty)))))));
    lemma_string_round_trip(m.request_id, a2 + (a3 + (a4 + (a5 + (a6 + (a7 + empty))))));
    lemma_varint_round_trip(m.status_code as u64, a3 + (a4 + (a5 + (a6 + (a7 + empty)))));
    lemma_headers_round_trip(m.headers, a4 + (a5 + (a6 + (a7 + empty))));
    lemma_bytes_round_trip(m.payload, a5 + (a6 + (a7 + empty)));
    lemma_string_round_trip(m.error_message, a6 + (a7 + empty));
    lemma_opt_si_round_trip(m.streaming_info, a7 + empty);
    assert(a7 + empty =~= a7);
    lemma_opt_rsi_round_trip(m.response_stream_info, empty);
    match spec_dec_response(spec_enc_response(m)) {
        None => {
            assert(false);
        },
        Some((m2, rest)) => {
            assert(rest.len() == 0);
            assert(m2 =~= m);
        },
    }
}

/// Writes one boolean byte onto `out`.
fn encode_bool(b: bool, out: &mut Vec<u8>)
    ensures
        final(out)@ == old(out)@ + spec_enc_bool(b),
{
    out.push(if b { 1 } else { 0 });
    assert(out@ =~= old(out)@ + spec_enc_bool(b));
}

/// Reads one boolean from `s` at cursor `i`.
fn decode_bool(s: &[u8], i: usize) -> (r: Option<(bool, usize)>)
    requires
        i <= s@.len(),
    ensures
        match r {
            Some((b, j)) => {
                &&& i < j <= s@.len()
                &&& spec_dec_bool(s@.skip(i as int)) == Some((b, s@.skip(j as int)))
            },
            None => spec_dec_bool(s@.skip(i as int)) is None,
        },
{
    if i == s.len() {
        return None;
    }
    let b = s[i];
    assert(s@.skip(i as int)[0] == b);
    assert(s@.skip(i as int).skip(1) =~= s@.skip(i as int + 1));
    if b == 0 {
        Some((false, i + 1))
    } else if b == 1 {
        Some((true, i + 1))
    } else {
        None
    }
}

/// Writes one stream-shape byte onto `out`.
fn encode_stream_type(t: crate::messages::StreamType, out: &mut Vec<u8>)
    ensures
        final(out)@ == old(out)@ + spec_enc_stream_type(t),
{
    let b: u8 = match t {
        crate::messages::StreamType::Unary => 0,
        crate::messages::StreamType::ClientStreaming => 1,
        crate::messages::StreamType::ServerStreaming => 2,
        crate::messages::StreamType::BidirectionalStreaming => 3,
    };
    out.push(b);
    assert(out@ =~= old(out)@ + spec_enc_stream_type(t));
}

/// Reads one stream shape from `s` at cursor `i`.
fn decode_stream_type(s: &[u8], i: usize) -> (r: Option<(crate::messages::StreamType, usize)>)
    requires
        i <= s@.len(),
    ensures
        match r {
            Some((t, j)) => {
                &&& i < j <= s@.len()
                &&& spec_dec_stream_type(s@.skip(i as int)) == Some((t, s@.skip(j as int)))
            },
            None => spec_dec_stream_type(s@.skip(i as int)) is None,
        },
{
    if i == s.len() {
        return None;
    }
    let b = s[i];
    assert(s@.skip(i as int)[0] == b);
    assert(s@.skip(i as int).skip(1) =~= s@.skip(i as int + 1));
    if b == 0 {
        Some((crate::messages::StreamType::Unary, i + 1))
    } else if b == 1 {
        Some((crate::messages::StreamType::ClientStreaming, i + 1))
    } else if b == 2 {
        Some((crate::messages::StreamType::ServerStreaming, i + 1))
    } else if b == 3 {
        Some((crate::messages::StreamType::BidirectionalStreaming, i + 1))
    } else {
        None
    }
}

/// Writes one optional number onto `out`.
fn encode_opt_u64(o: &Option<u64>, out: &mut Vec<u8>)
    ensures
        final(out)@ == old(out)@ + spec_enc_opt_u64(*o),
{
    match o {
        None => {
            encode_bool(false, out);
            assert(out@ =~= old(out)@ + spec_enc_opt_u64(*o));
        },
        Some(v) => {
            encode_bool(true, out);
            encode_varint(*v, out);
            assert(out@ =~= old(out)@ + spec_enc_opt_u64(*o));
        },
    }
}

/// Reads one optional number from `s` at cursor `i`.
fn decode_opt_u64(s: &[u8], i: usize) -> (r: Option<(Option<u64>, usize)>)
    requires
        i <= s@.len(),
    ensures
        match r {
            Some((o, j)) => {
                &&& i <= j <= s@.len()
                &&& spec_dec_opt_u64(s@.skip(i as int)) == Some((o, s@.skip(j as int)))
            },
            None => spec_dec_opt_u64(s@.skip(i as int)) is None,
        },
{
    match decode_bool(s, i) {
        None => None,
        Some((false, j)) => Some((None, j)),
        Some((true, j)) => match decode_varint(s, j) {
            None => None,
            Some((v, k)) => Some((Some(v), k)),
        },
    }
}

/// Writes one request-side stream framing onto `out`.
fn encode_si(si: &crate::messages::StreamingInfo, out: &mut Vec<u8>)
    ensures
        final(out)@ == old(out)@ + spec_enc_si(*si),
{
    encode_stream_type(si.stream_type, out);
    encode_bool(si.is_stream_end, out);
    encode_varint(si.sequence_number, out);
    encode_varint(si.chunk_size as u64, out);
    assert(out@ =~= old(out)@ + spec_enc_si(*si));
}

/// Reads one request-side stream framing from `s` at cursor `i`.
fn decode_si(s: &[u8], i: usize) -> (r: Option<(crate::messages::StreamingInfo, usize)>)
    requires
        i <= s@.len(),
    ensures
        match r {
            Some((si, j)) => {
                &&& i <= j <= s@.len()
                &&& spec_dec_si(s@.skip(i as int)) == Some((si, s@.skip(j as int)))
            },
            None => spec_dec_si(s@.skip(i as int)) is None,
        },
{
    match decode_stream_type(s, i) {
        None => None,
        Some((t, j1)) => match decode_bool(s, j1) {
            None => None,
            Some((e, j2)) => match decode_varint(s, j2) {
                None => None,
                Some((q, j3)) => match decode_varint(s, j3) {
                    None => None,
                    Some((c, j4)) => {
                        if c <= u32::MAX as u64 {
                            Some(
                                (
                                    crate::messages::StreamingInfo {
                                        stream_type: t,
                                        is_stream_end: e,
                                        sequence_number: q,
                                        chunk_size: c as u32,
                                    },
                                    j4,
                                ),
                            )
                        } else {
                            None
                        }
                    },
                },
            },
        },
    }
}

/// Writes one optional request-side framing onto `out`.
fn encode_opt_si(o: &Option<crate::messages::StreamingInfo>, out: &mut Vec<u8>)
    ensures
        final(out)@ == old(out)@ + spec_enc_opt_si(*o),
{
    match o {
        None => {
            encode_bool(false, out);
            assert(out@ =~= old(out)@ + spec_enc_opt_si(*o));
        },
        Some(si) => {
            encode_bool(true, out);
            encode_si(si, out);
            assert(out@ =~= old(out)@ + spec_enc_opt_si(*o));
        },
    }
}

/// Reads one optional request-side framing from `s` at cursor `i`.
fn decode_opt_si(s: &[u8], i: usize) -> (r: Option<(
    Option<crate::messages::StreamingInfo>,
    usize,
)>)
    requires
        i <= s@.len(),
    ensures
        match r {
            Some((o, j)) => {
                &&& i <= j <= s@.len()
                &&& spec_dec_opt_si(s@.skip(i as int)) == Some((o, s@.skip(j as int)))
            },
            None => spec_dec_opt_si(s@.skip(i as int)) is None,
        },
{
    match decode_bool(s, i) {
        None => None,
        Some((false, j)) => Some((None, j)),
        Some((true, j)) => match decode_si(s, j) {
            None => None,
            Some((si, k)) => Some((Some(si), k)),
        },
    }
}

/// Writes one response-side chunk framing onto `out`.
fn encode_rsi(r: &crate::messages::ResponseStreamInfo, out: &mut Vec<u8>)
    ensures
        final(out)@ == old(out)@ + spec_enc_rsi(*r),
{
    encode_bool(r.is_streamed, out);
    encode_varint(r.chunk_index, out);
    encode_bool(r.is_final_chunk, out);
    encode_varint(r.chunk_size as u64, out);
    encode_opt_u64(&r.total_size, out);
    assert(out@ =~= old(out)@ + spec_enc_rsi(*r));
}

/// Reads one response-side chunk framing from `s` at cursor `i`.
fn decode_rsi(s: &[u8], i: usize) -> (r: Option<(crate::messages::ResponseStreamInfo, usize)>)
    requires
        i <= s@.len(),
    ensures
        match r {
            Some((ri, j)) => {
                &&& i <= j <= s@.len()
                &&& spec_dec_rsi(s@.skip(i as int)) == Some((ri, s@.skip(j as int)))
            },
            None => spec_dec_rsi(s@.skip(i as int)) is None,
        },
{
    match decode_bool(s, i) {
        None => None,
        Some((st, j1)) => match decode_varint(s, j1) {
            None => None,
            Some((ci, j2)) => match decode_bool(s, j2) {
                None => None,
                Some((fc, j3)) => match decode_varint(s, j3) {
                    None => None,
                    Some((c, j4)) => {
                        if c <= u32::MAX as u64 {
                            match decode_opt_u64(s, j4) {
                                None => None,
                                Some((ts, j5)) => Some(
                                    (
                                        crate::messages::ResponseStreamInfo {
                                            is_streamed: st,
                                            chunk_index: ci,
                                            is_final_chunk: fc,
                                            chunk_size: c as u32,
                                            total_size: ts,
                                        },
                                        j5,
                                    ),
                                ),
                            }
                        } else {
                            None
                        }
                    },
                },
            },
        },
    }
}

/// Reads one optional response-side framing from `s` at cursor `i`.
fn decode_opt_rsi(s: &[u8], i: usize) -> (r: Option<(
    Option<crate::messages::ResponseStreamInfo>,
    usize,
)>)
    requires
        i <= s@.len(),
    ensures
        match r {
            Some((o, j)) => {
                &&& i <= j <= s@.len()
                &&& spec_dec_opt_rsi(s@.skip(i as int)) == Some((o, s@.skip(j as int)))
            },
            None => spec_dec_opt_rsi(s@.skip(i as int)) is None,
        },
{
    match decode_bool(s, i) {
        None => None,
        Some((false, j)) => Some((None, j)),
        Some((true, j)) => match decode_rsi(s, j) {
            None => None,
            Some((ri, k)) => Some((Some(ri), k)),
        },
    }
}

/// Writes one optional response-side framing onto `out`.
fn encode_opt_rsi(o: &Option<crate::messages::ResponseStreamInfo>, out: &mut Vec<u8>)
    ensures
        final(out)@ == old(out)@ + spec_enc_opt_rsi(*o),
{
    match o {
        None => {
            encode_bool(false, out);
            assert(out@ =~= old(out)@ + spec_enc_opt_rsi(*o));
        },
        Some(r) => {
            encode_bool(true, out);
            encode_rsi(r, out);
            assert(out@ =~= old(out)@ + spec_enc_opt_rsi(*o));
        },
    }
}

/// Writes a header map onto `out`: pair count, then the pairs in order.
fn encode_headers(h: &Vec<(String, String)>, out: &mut Vec<u8>)
    ensures
        final(out)@ == old(out)@ + spec_enc_headers(crate::messages::headers_view(h@)),
{
    let ghost hv = crate::messages::headers_view(h@);
    let n = h.len();
    encode_varint(n as u64, out);
    assert(hv.take(0int) =~= Seq::<(Seq<char>, Seq<char>)>::empty());
    assert(spec_enc_pairs(hv.take(0int)) =~= Seq::<u8>::empty());
    assert(out@ =~= old(out)@ + spec_enc_varint(hv.len() as u64) + spec_enc_pairs(hv.take(0int)));
    for i in 0..n
        invariant
            n == h@.len(),
            hv == crate::messages::headers_view(h@),
            out@ == old(out)@ + spec_enc_varint(hv.len() as u64) + spec_enc_pairs(
                hv.take(i as int),
            ),
    {
        let ghost pre = hv.take(i as int);
        let p: &(String, String) = &h[i];
        encode_string(p.0.as_str(), out);
        encode_string(p.1.as_str(), out);
        proof {
            assert(hv[i as int] == (h@[i as int].0@, h@[i as int].1@));
            assert(hv.take(i + 1int) =~= pre + seq![hv[i as int]]);
            lemma_enc_pairs_concat(pre, seq![hv[i as int]]);
            assert(seq![hv[i as int]].skip(1) =~= Seq::<(Seq<char>, Seq<char>)>::empty());
            assert(spec_enc_pairs(seq![hv[i as int]]) =~= spec_enc_pair(hv[i as int])
                + spec_enc_pairs(seq![hv[i as int]].skip(1)));
            assert(spec_enc_pairs(seq![hv[i as int]]) =~= spec_enc_pair(hv[i as int]));
            assert(out@ =~= old(out)@ + spec_enc_varint(hv.len() as u64) + spec_enc_pairs(
                hv.take(i + 1int),
            ));
        }
    }
    assert(hv.take(n as int) =~= hv);
    assert(out@ =~= old(out)@ + spec_enc_headers(hv));
}

/// Reads `n` pairs from `s` at cursor `i` onto `acc`.
fn decode_pairs(s: &[u8], i: usize, n: u64, acc: Vec<(String, String)>) -> (r: Option<
    (Vec<(String, String)>, usize),
>)
    requires
        i <= s@.len(),
    ensures
        match r {
            Some((h, j)) => {
                &&& i <= j <= s@.len()
                &&& spec_dec_pairs(
                    n as nat,
                    s@.skip(i as int),
                    crate::messages::headers_view(acc@),
                ) == Some((crate::messages::headers_view(h@), s@.skip(j as int)))
            },
            None => spec_dec_pairs(
                n as nat,
                s@.skip(i as int),
                crate::messages::headers_view(acc@),
            ) is None,
        },
    decreases n,
{
    if n == 0 {
        return Some((acc, i));
    }
    match decode_string(s, i) {
        None => None,
        Some((k, j1)) => match decode_string(s, j1) {
            None => None,
            Some((v, j2)) => {
                let ghost accv = crate::messages::headers_view(acc@);
                let mut acc2 = acc;
                let ghost kk = k@;
                let ghost vv = v@;
                acc2.push((k, v));
                proof {
                    assert(crate::messages::headers_view(acc2@) =~= accv.push((kk, vv)));
                }
                decode_pairs(s, j2, n - 1, acc2)
            },
        },
    }
}

/// Reads one header map from `s` at cursor `i`.
fn decode_headers(s: &[u8], i: usize) -> (r: Option<(Vec<(String, String)>, usize)>)
    requires
        i <= s@.len(),
    ensures
        match r {
            Some((h, j)) => {
                &&& i <= j <= s@.len()
                &&& spec_dec_headers(s@.skip(i as int)) == Some(
                    (crate::messages::headers_view(h@), s@.skip(j as int)),
                )
            },
            None => spec_dec_headers(s@.skip(i as int)) is None,
        },
{
    match decode_varint(s, i) {
        None => None,
        Some((n, j)) => {
            let acc: Vec<(String, String)> = Vec::new();
            assert(crate::messages::headers_view(acc@) =~= Seq::<(Seq<char>, Seq<char>)>::empty());
            decode_pairs(s, j, n, acc)
        },
    }
}

/// Encodes a `ForwardRequest` into a fresh buffer.
pub fn encode_request(m: &crate::messages::ForwardRequest) -> (out: Vec<u8>)
    ensures
        out@ == spec_enc_request(m@),
{
    let mut out: Vec<u8> = Vec::new();
    encode_string(m.request_id.as_str(), &mut out);
    encode_string(m.method_path.as_str(), &mut out);
    encode_headers(&m.headers, &mut out);
    encode_bytes(m.payload.as_slice(), &mut out);
    encode_varint(m.timeout_seconds as u64, &mut out);
    encode_opt_si(&m.streaming_info, &mut out);
    assert(out@ =~= spec_enc_request(m@));
    out
}

/// Decodes a whole buffer as one `ForwardRequest`; trailing bytes, truncated
/// fields and out-of-range values are refused with `None`.
pub fn decode_request(s: &[u8]) -> (r: Option<crate::messages::ForwardRequest>)
    ensures
        match r {
            Some(m) => spec_decode_request(s@) == Some(m@),
            None => spec_decode_request(s@) is None,
        },
{
    assert(s@.skip(0int) =~= s@);
    let r1 = decode_string(s, 0);
    match r1 {
        None => None,
        Some((rid, j1)) => match decode_string(s, j1) {
            None => None,
            Some((mp, j2)) => match decode_headers(s, j2) {
                None => None,
                Some((h, j3)) => match decode_bytes(s, j3) {
                    None => None,
                    Some((pl, j4)) => match decode_varint(s, j4) {
                        None => None,
                        Some((to, j5)) => {
                            if to <= u32::MAX as u64 {
                                match decode_opt_si(s, j5) {
                                    None => None,
                                    Some((si, j6)) => {
                                        if j6 == s.len() {
                                            assert(s@.skip(j6 as int).len() == 0);
                                            Some(
                                                crate::messages::ForwardRequest {
                                                    request_id: rid,
                                                    method_path: mp,
                                                    headers: h,
                                                    payload: pl,
                                                    timeout_seconds: to as u32,
                                                    streaming_info: si,
                                                },
                                            )
                                        } else {
                                            None
                                        }
                                    },
                                }
                            } else {
                                None
                            }
                        },
                    },
                },
            },
        },
    }
}

/// Encodes a `ForwardResponse` into a fresh buffer.
pub fn encode_response(m: &crate::messages::ForwardResponse) -> (out: Vec<u8>)
    ensures
        out@ == spec_enc_response(m@),
{
    let mut out: Vec<u8> = Vec::new();
    encode_string(m.request_id.as_str(), &mut out);
    encode_varint(m.status_code as u64, &mut out);
    encode_headers(&m.headers, &mut out);
    encode_bytes(m.payload.as_slice(), &mut out);
    encode_string(m.error_message.as_str(), &mut out);
    encode_opt_si(&m.streaming_info, &mut out);
    encode_opt_rsi(&m.response_stream_info, &mut out);
    assert(out@ =~= spec_enc_response(m@));
    out
}

/// Decodes a whole buffer as one `ForwardResponse`; trailing bytes,
/// truncated fields and out-of-range values are refused with `None`.
pub fn decode_response(s: &[u8]) -> (r: Option<crate::messages::ForwardResponse>)
    ensures
        match r {
            Some(m) => spec_decode_response(s@) == Some(m@),
            None => spec_decode_response(s@) is None,
        },
{
    assert(s@.skip(0int) =~= s@);
    match decode_string(s, 0) {
        None => None,
        Some((rid, j1)) => match decode_varint(s, j1) {
            None => None,
            Some((sc, j2)) => {
                if sc <= u32::MAX as u64 {
                    match decode_headers(s, j2) {
                        None => None,
                        Some((h, j3)) => match decode_bytes(s, j3) {
                            None => None,
                            Some((pl, j4)) => match decode_string(s, j4) {
                                None => None,
                                Some((em, j5)) => match decode_opt_si(s, j5) {
                                    None => None,
                                    Some((si, j6)) => match decode_opt_rsi(s, j6) {
                                        None => None,
                                        Some((ri, j7)) => {
                                            if j7 == s.len() {
                                                assert(s@.skip(j7 as int).len() == 0);
                                                Some(
                                                    crate::messages::ForwardResponse {
                                                        request_id: rid,
                                                        status_code: sc as u32,
                                                        headers: h,
                                                        payload: pl,
                                                        error_message: em,
                                                        streaming_info: si,
                                                        response_stream_info: ri,
                                                    },
                                                )
                                            } else {
                                                None
                                            }
                                        },
                                    },
                                },
                            },
                        },
                    }
                } else {
                    None
                }
            },
        },
    }
}

} // verus!
