//! Wire primitives shared by the cache codecs.
//!
//! Everything here is a little-endian base-128 varint, a length-prefixed
//! byte string, or a counted list built from those. Each encoder has a spec
//! image, each decoder is exact against a spec parser, and round-trip lemmas
//! tie the two together.

use vstd::arithmetic::div_mod::lemma_div_is_ordered;
use vstd::arithmetic::div_mod::lemma_fundamental_div_mod;
use vstd::prelude::*;
use vstd::slice::slice_subrange;
use vstd::slice::slice_to_vec;
use vstd::string::StrSliceExecFns;
use vstd::utf8::decode_utf8;
use vstd::utf8::encode_utf8;
use vstd::utf8::encode_utf8_decode_utf8;
use vstd::utf8::encode_utf8_valid_utf8;
use vstd::utf8::valid_utf8;

use crate::instance::pairs_view;

verus! {

/// The canonical base-128 encoding of a value, low bits first.
pub open spec fn spec_varint_bytes(v: u64) -> Seq<u8>
    decreases v,
{
    if v < 128 {
        seq![v as u8]
    } else {
        seq![(v % 128 + 128) as u8] + spec_varint_bytes(v / 128)
    }
}

/// The varint at the front of a byte sequence, with how many bytes it took;
/// only canonical (shortest) encodings are accepted.
pub open spec fn spec_parse_varint(s: Seq<u8>) -> Option<(u64, int)>
    decreases s.len(),
{
    if s.len() == 0 {
        None
    } else if s[0] < 128 {
        Some((s[0] as u64, 1))
    } else {
        match spec_parse_varint(s.drop_first()) {
            None => None,
            Some((rv, n)) => if 1 <= rv && rv <= 0x01ff_ffff_ffff_ffffu64 {
                Some((((s[0] - 128) + 128 * rv) as u64, 1 + n))
            } else {
                None
            },
        }
    }
}

/// A parsed varint took at least one byte and no more than there are.
pub proof fn lemma_parse_varint_bounds(s: Seq<u8>)
    ensures
        spec_parse_varint(s) matches Some(p) ==> 1 <= p.1 <= s.len(),
    decreases s.len(),
{
    if s.len() != 0 && s[0] >= 128 {
        lemma_parse_varint_bounds(s.drop_first());
    }
}

/// Parsing after encoding gives the value back and consumes exactly the
/// encoding, whatever follows it.
pub proof fn lemma_varint_round_trip(v: u64, rest: Seq<u8>)
    ensures
        spec_parse_varint(spec_varint_bytes(v) + rest) == Some(
            (v, spec_varint_bytes(v).len() as int),
        ),
    decreases v,
{
    let enc = spec_varint_bytes(v);
    let s = enc + rest;
    if v < 128 {
        assert(s[0] == v as u8);
    } else {
        let tail = spec_varint_bytes(v / 128);
        assert(enc == seq![(v % 128 + 128) as u8] + tail);
        assert(s[0] == (v % 128 + 128) as u8);
        assert(s[0] >= 128);
        assert(s.drop_first() =~= tail + rest);
        lemma_varint_round_trip(v / 128, rest);
        assert(v / 128 >= 1);
        lemma_div_is_ordered(v as int, u64::MAX as int, 128);
        assert(v / 128 <= 0x01ff_ffff_ffff_ffffu64);
        lemma_fundamental_div_mod(v as int, 128);
        assert(((s[0] - 128) + 128 * (v / 128)) as u64 == v);
        assert(s.len() >= 1);
    }
}

/// Appends the canonical varint encoding of a value.
pub fn write_varint(v: u64, out: &mut Vec<u8>)
    ensures
        final(out)@ == old(out)@ + spec_varint_bytes(v),
    decreases v,
{
    if v < 128 {
        out.push(v as u8);
        assert(out@ =~= old(out)@ + spec_varint_bytes(v));
    } else {
        out.push((v % 128 + 128) as u8);
        write_varint(v / 128, out);
        assert(out@ =~= old(out)@ + spec_varint_bytes(v));
    }
}

/// Reads the varint at `pos`, returning the value and the position after it.
pub fn read_varint(bytes: &Vec<u8>, pos: usize) -> (r: Option<(u64, usize)>)
    requires
        pos <= bytes@.len(),
    ensures
        match spec_parse_varint(bytes@.skip(pos as int)) {
            None => r is None,
            Some(p) => r matches Some(rr) && rr.0 == p.0 && rr.1 == pos + p.1 && rr.1
                <= bytes@.len(),
        },
    decreases bytes@.len() - pos,
{
    proof {
        lemma_parse_varint_bounds(bytes@.skip(pos as int));
    }
    if pos >= bytes.len() {
        return None;
    }
    let ghost s = bytes@.skip(pos as int);
    let b = bytes[pos];
    assert(s[0] == b);
    if b < 128 {
        Some((b as u64, pos + 1))
    } else {
        assert(s.drop_first() =~= bytes@.skip(pos as int + 1));
        match read_varint(bytes, pos + 1) {
            None => None,
            Some((rv, p)) => {
                if 1 <= rv && rv <= 0x01ff_ffff_ffff_ffffu64 {
                    Some(((b - 128) as u64 + 128 * rv, p))
                } else {
                    None
                }
            },
        }
    }
}

/// A byte string framed by its varint length.
pub open spec fn spec_lp_bytes(b: Seq<u8>) -> Seq<u8> {
    spec_varint_bytes(b.len() as u64) + b
}

/// The length-prefixed byte string at the front of a sequence.
pub open spec fn spec_parse_lp(s: Seq<u8>) -> Option<(Seq<u8>, int)> {
    match spec_parse_varint(s) {
        None => None,
        Some((v, n)) => if v as int <= s.len() - n {
            Some((s.subrange(n, n + v as int), n + v as int))
        } else {
            None
        },
    }
}

/// A parsed length-prefixed string stays inside the sequence.
pub proof fn lemma_parse_lp_bounds(s: Seq<u8>)
    ensures
        spec_parse_lp(s) matches Some(p) ==> 1 <= p.1 <= s.len(),
{
    lemma_parse_varint_bounds(s);
}

/// Round trip for length-prefixed byte strings.
pub proof fn lemma_lp_round_trip(b: Seq<u8>, rest: Seq<u8>)
    requires
        b.len() <= u64::MAX,
    ensures
        spec_parse_lp(spec_lp_bytes(b) + rest) == Some((b, spec_lp_bytes(b).len() as int)),
{
    let lenc = spec_varint_bytes(b.len() as u64);
    let s = spec_lp_bytes(b) + rest;
    assert(s =~= lenc + (b + rest));
    lemma_varint_round_trip(b.len() as u64, b + rest);
    let n = lenc.len() as int;
    assert(spec_parse_varint(s) == Some((b.len() as u64, n)));
    assert(s.subrange(n, n + b.len() as int) =~= b);
}

/// Appends a byte slice.
pub fn append_bytes(out: &mut Vec<u8>, data: &[u8])
    ensures
        final(out)@ == old(out)@ + data@,
{
    let mut i: usize = 0;
    while i < data.len()
        invariant
            i <= data@.len(),
            out@ == old(out)@ + data@.take(i as int),
        decreases data@.len() - i,
    {
        out.push(data[i]);
        assert(out@ =~= old(out)@ + data@.take(i as int + 1));
        i += 1;
    }
    assert(out@ =~= old(out)@ + data@);
}

/// Reads the length-prefixed byte string at `pos`.
pub fn read_lp(bytes: &Vec<u8>, pos: usize) -> (r: Option<(Vec<u8>, usize)>)
    requires
        pos <= bytes@.len(),
    ensures
        match spec_parse_lp(bytes@.skip(pos as int)) {
            None => r is None,
            Some(p) => r matches Some(rr) && rr.0@ == p.0 && rr.1 == pos + p.1 && rr.1
                <= bytes@.len(),
        },
{
    let ghost s = bytes@.skip(pos as int);
    match read_varint(bytes, pos) {
        None => None,
        Some((v, p)) => {
            if v <= (bytes.len() - p) as u64 {
                let end = p + (v as usize);
                let piece = slice_subrange(bytes.as_slice(), p, end);
                let out = slice_to_vec(piece);
                proof {
                    lemma_parse_varint_bounds(s);
                    let n: int = p - pos;
                    assert(s.subrange(n, n + v as int) =~= bytes@.subrange(p as int, end as int));
                }
                Some((out, end))
            } else {
                None
            }
        },
    }
}

/// A character string as a length-prefixed UTF-8 byte string.
pub open spec fn spec_str_bytes(c: Seq<char>) -> Seq<u8> {
    spec_lp_bytes(encode_utf8(c))
}

/// The character string at the front of a sequence; the framed bytes must be
/// valid UTF-8.
pub open spec fn spec_parse_str(s: Seq<u8>) -> Option<(Seq<char>, int)> {
    match spec_parse_lp(s) {
        None => None,
        Some((b, n)) => if valid_utf8(b) {
            Some((decode_utf8(b), n))
        } else {
            None
        },
    }
}

/// A parsed string stays inside the sequence.
pub proof fn lemma_parse_str_bounds(s: Seq<u8>)
    ensures
        spec_parse_str(s) matches Some(p) ==> 1 <= p.1 <= s.len(),
{
    lemma_parse_lp_bounds(s);
}

/// Round trip for character strings.
pub proof fn lemma_str_round_trip(c: Seq<char>, rest: Seq<u8>)
    requires
        encode_utf8(c).len() <= u64::MAX,
    ensures
        spec_parse_str(spec_str_bytes(c) + rest) == Some((c, spec_str_bytes(c).len() as int)),
{
    lemma_lp_round_trip(encode_utf8(c), rest);
    encode_utf8_valid_utf8(c);
    encode_utf8_decode_utf8(c);
}

/// Relies on `String::from_utf8`: it succeeds exactly on valid UTF-8 input
/// and returns the string those bytes spell.
#[verifier::external_body]
pub(crate) fn utf8_to_string(bytes: Vec<u8>) -> (r: Option<String>)
    ensures
        r is Some <==> valid_utf8(bytes@),
        r matches Some(s) ==> s@ == decode_utf8(bytes@),
{
    String::from_utf8(bytes).ok()
}

/// Appends the length-prefixed UTF-8 encoding of a string.
pub fn write_str(s: &str, out: &mut Vec<u8>)
    ensures
        final(out)@ == old(out)@ + spec_str_bytes(s@),
{
    let bv = s.as_bytes_vec();
    write_varint(bv.len() as u64, out);
    append_bytes(out, bv.as_slice());
    assert(out@ =~= old(out)@ + spec_str_bytes(s@));
}

/// Reads the length-prefixed UTF-8 string at `pos`.
pub fn read_str(bytes: &Vec<u8>, pos: usize) -> (r: Option<(String, usize)>)
    requires
        pos <= bytes@.len(),
    ensures
        match spec_parse_str(bytes@.skip(pos as int)) {
            None => r is None,
            Some(p) => r matches Some(rr) && rr.0@ == p.0 && rr.1 == pos + p.1 && rr.1
                <= bytes@.len(),
        },
{
    match read_lp(bytes, pos) {
        None => None,
        Some((bv, p)) => {
            match utf8_to_string(bv) {
                None => None,
                Some(s) => Some((s, p)),
            }
        },
    }
}

/// The concatenated encodings of a list of strings, without a count.
pub open spec fn spec_str_seq_bytes(l: Seq<Seq<char>>) -> Seq<u8>
    decreases l.len(),
{
    if l.len() == 0 {
        Seq::empty()
    } else {
        spec_str_bytes(l[0]) + spec_str_seq_bytes(l.drop_first())
    }
}

/// Appending a string to the list appends its encoding.
pub proof fn lemma_str_seq_bytes_push(l: Seq<Seq<char>>, x: Seq<char>)
    ensures
        spec_str_seq_bytes(l.push(x)) == spec_str_seq_bytes(l) + spec_str_bytes(x),
    decreases l.len(),
{
    if l.len() == 0 {
        let e: Seq<Seq<char>> = Seq::empty();
        assert(l.push(x).drop_first() =~= e);
        assert(l.push(x)[0] == x);
        assert(spec_str_seq_bytes(e) == Seq::<u8>::empty());
        assert(spec_str_seq_bytes(l.push(x)) == spec_str_bytes(x) + spec_str_seq_bytes(e));
        assert(spec_str_bytes(x) + Seq::<u8>::empty() =~= spec_str_bytes(x));
        assert(spec_str_seq_bytes(l) + spec_str_bytes(x) =~= spec_str_bytes(x));
    } else {
        assert(l.push(x).drop_first() =~= l.drop_first().push(x));
        assert(l.push(x)[0] == l[0]);
        lemma_str_seq_bytes_push(l.drop_first(), x);
        assert(spec_str_bytes(l[0]) + (spec_str_seq_bytes(l.drop_first()) + spec_str_bytes(x))
            =~= (spec_str_bytes(l[0]) + spec_str_seq_bytes(l.drop_first())) + spec_str_bytes(x));
    }
}

/// A counted list of strings: the count as a varint, then each string.
pub open spec fn spec_str_list_bytes(l: Seq<Seq<char>>) -> Seq<u8> {
    spec_varint_bytes(l.len() as u64) + spec_str_seq_bytes(l)
}

/// `count` strings read from the front of a sequence.
pub open spec fn spec_parse_str_seq(s: Seq<u8>, count: nat) -> Option<(Seq<Seq<char>>, int)>
    decreases count,
{
    if count == 0 {
        Some((Seq::empty(), 0))
    } else {
        match spec_parse_str(s) {
            None => None,
            Some((c, n)) => match spec_parse_str_seq(s.skip(n), (count - 1) as nat) {
                None => None,
                Some((l, m)) => Some((seq![c] + l, n + m)),
            },
        }
    }
}

/// The counted string list at the front of a sequence.
pub open spec fn spec_parse_str_list(s: Seq<u8>) -> Option<(Seq<Seq<char>>, int)> {
    match spec_parse_varint(s) {
        None => None,
        Some((cnt, n)) => match spec_parse_str_seq(s.skip(n), cnt as nat) {
            None => None,
            Some((l, m)) => Some((l, n + m)),
        },
    }
}

/// Round trip for the uncounted concatenation.
pub proof fn lemma_str_seq_round_trip(l: Seq<Seq<char>>, rest: Seq<u8>)
    requires
        forall|i: int| 0 <= i < l.len() ==> #[trigger] encode_utf8(l[i]).len() <= u64::MAX,
    ensures
        spec_parse_str_seq(spec_str_seq_bytes(l) + rest, l.len()) == Some(
            (l, spec_str_seq_bytes(l).len() as int),
        ),
    decreases l.len(),
{
    if l.len() == 0 {
        assert(spec_str_seq_bytes(l) + rest =~= rest);
    } else {
        let h = l[0];
        let t = l.drop_first();
        let s = spec_str_seq_bytes(l) + rest;
        assert(s =~= spec_str_bytes(h) + (spec_str_seq_bytes(t) + rest));
        lemma_str_round_trip(h, spec_str_seq_bytes(t) + rest);
        let n = spec_str_bytes(h).len() as int;
        assert(s.skip(n) =~= spec_str_seq_bytes(t) + rest);
        assert(forall|i: int| 0 <= i < t.len() ==> #[trigger] encode_utf8(t[i]).len() <= u64::MAX);
        lemma_str_seq_round_trip(t, rest);
        assert(seq![h] + t =~= l);
    }
}

/// Round trip for counted string lists.
pub proof fn lemma_str_list_round_trip(l: Seq<Seq<char>>, rest: Seq<u8>)
    requires
        l.len() <= u64::MAX,
        forall|i: int| 0 <= i < l.len() ==> #[trigger] encode_utf8(l[i]).len() <= u64::MAX,
    ensures
        spec_parse_str_list(spec_str_list_bytes(l) + rest) == Some(
            (l, spec_str_list_bytes(l).len() as int),
        ),
{
    let cenc = spec_varint_bytes(l.len() as u64);
    let s = spec_str_list_bytes(l) + rest;
    assert(s =~= cenc + (spec_str_seq_bytes(l) + rest));
    lemma_varint_round_trip(l.len() as u64, spec_str_seq_bytes(l) + rest);
    let n = cenc.len() as int;
    assert(s.skip(n) =~= spec_str_seq_bytes(l) + rest);
    lemma_str_seq_round_trip(l, rest);
}

/// One key/value pair: two length-prefixed strings.
pub open spec fn spec_pair_bytes(p: (Seq<char>, Seq<char>)) -> Seq<u8> {
    spec_str_bytes(p.0) + spec_str_bytes(p.1)
}

/// The concatenated encodings of a list of pairs, without a count.
pub open spec fn spec_pairs_seq_bytes(l: Seq<(Seq<char>, Seq<char>)>) -> Seq<u8>
    decreases l.len(),
{
    if l.len() == 0 {
        Seq::empty()
    } else {
        spec_pair_bytes(l[0]) + spec_pairs_seq_bytes(l.drop_first())
    }
}

/// Appending a pair to the list appends its encoding.
pub proof fn lemma_pairs_seq_bytes_push(l: Seq<(Seq<char>, Seq<char>)>, x: (Seq<char>, Seq<char>))
    ensures
        spec_pairs_seq_bytes(l.push(x)) == spec_pairs_seq_bytes(l) + spec_pair_bytes(x),
    decreases l.len(),
{
    if l.len() == 0 {
        let e: Seq<(Seq<char>, Seq<char>)> = Seq::empty();
        assert(l.push(x).drop_first() =~= e);
        assert(l.push(x)[0] == x);
        assert(spec_pairs_seq_bytes(e) == Seq::<u8>::empty());
        assert(spec_pairs_seq_bytes(l.push(x)) == spec_pair_bytes(x) + spec_pairs_seq_bytes(e));
        assert(spec_pair_bytes(x) + Seq::<u8>::empty() =~= spec_pair_bytes(x));
        assert(spec_pairs_seq_bytes(l) + spec_pair_bytes(x) =~= spec_pair_bytes(x));
    } else {
        assert(l.push(x).drop_first() =~= l.drop_first().push(x));
        assert(l.push(x)[0] == l[0]);
        lemma_pairs_seq_bytes_push(l.drop_first(), x);
        assert(spec_pair_bytes(l[0]) + (spec_pairs_seq_bytes(l.drop_first()) + spec_pair_bytes(x))
            =~= (spec_pair_bytes(l[0]) + spec_pairs_seq_bytes(l.drop_first())) + spec_pair_bytes(
            x,
        ));
    }
}

/// A counted list of pairs: the count as a varint, then each pair.
pub open spec fn spec_pairs_list_bytes(l: Seq<(Seq<char>, Seq<char>)>) -> Seq<u8> {
    spec_varint_bytes(l.len() as u64) + spec_pairs_seq_bytes(l)
}

/// The pair at the front of a sequence.
pub open spec fn spec_parse_pair(s: Seq<u8>) -> Option<((Seq<char>, Seq<char>), int)> {
    match spec_parse_str(s) {
        None => None,
        Some((k, n)) => match spec_parse_str(s.skip(n)) {
            None => None,
            Some((v, m)) => Some(((k, v), n + m)),
        },
    }
}

/// A parsed pair stays inside the sequence.
pub proof fn lemma_parse_pair_bounds(s: Seq<u8>)
    ensures
        spec_parse_pair(s) matches Some(p) ==> 2 <= p.1 <= s.len(),
{
    lemma_parse_str_bounds(s);
    match spec_parse_str(s) {
        Some((k, n)) => {
            lemma_parse_str_bounds(s.skip(n));
        },
        None => {},
    }
}

/// `count` pairs read from the front of a sequence.
pub open spec fn spec_parse_pairs_seq(s: Seq<u8>, count: nat) -> Option<
    (Seq<(Seq<char>, Seq<char>)>, int),
>
    decreases count,
{
    if count == 0 {
        Some((Seq::empty(), 0))
    } else {
        match spec_parse_pair(s) {
            None => None,
            Some((p, n)) => match spec_parse_pairs_seq(s.skip(n), (count - 1) as nat) {
                None => None,
                Some((l, m)) => Some((seq![p] + l, n + m)),
            },
        }
    }
}

/// The counted pair list at the front of a sequence.
pub open spec fn spec_parse_pairs_list(s: Seq<u8>) -> Option<(Seq<(Seq<char>, Seq<char>)>, int)> {
    match spec_parse_varint(s) {
        None => None,
        Some((cnt, n)) => match spec_parse_pairs_seq(s.skip(n), cnt as nat) {
            None => None,
            Some((l, m)) => Some((l, n + m)),
        },
    }
}

/// Round trip for one pair.
pub proof fn lemma_pair_round_trip(p: (Seq<char>, Seq<char>), rest: Seq<u8>)
    requires
        encode_utf8(p.0).len() <= u64::MAX,
        encode_utf8(p.1).len() <= u64::MAX,
    ensures
        spec_parse_pair(spec_pair_bytes(p) + rest) == Some((p, spec_pair_bytes(p).len() as int)),
{
    let s = spec_pair_bytes(p) + rest;
    assert(s =~= spec_str_bytes(p.0) + (spec_str_bytes(p.1) + rest));
    lemma_str_round_trip(p.0, spec_str_bytes(p.1) + rest);
    let n = spec_str_bytes(p.0).len() as int;
    assert(s.skip(n) =~= spec_str_bytes(p.1) + rest);
    lemma_str_round_trip(p.1, rest);
}

/// Round trip for the uncounted pair concatenation.
pub proof fn lemma_pairs_seq_round_trip(l: Seq<(Seq<char>, Seq<char>)>, rest: Seq<u8>)
    requires
        forall|i: int|
            0 <= i < l.len() ==> #[trigger] encode_utf8(l[i].0).len() <= u64::MAX && encode_utf8(
                l[i].1,
            ).len() <= u64::MAX,
    ensures
        spec_parse_pairs_seq(spec_pairs_seq_bytes(l) + rest, l.len()) == Some(
            (l, spec_pairs_seq_bytes(l).len() as int),
        ),
    decreases l.len(),
{
    if l.len() == 0 {
        assert(spec_pairs_seq_bytes(l) + rest =~= rest);
    } else {
        let h = l[0];
        let t = l.drop_first();
        let s = spec_pairs_seq_bytes(l) + rest;
        assert(s =~= spec_pair_bytes(h) + (spec_pairs_seq_bytes(t) + rest));
        lemma_pair_round_trip(h, spec_pairs_seq_bytes(t) + rest);
        let n = spec_pair_bytes(h).len() as int;
        assert(s.skip(n) =~= spec_pairs_seq_bytes(t) + rest);
        assert(forall|i: int|
            0 <= i < t.len() ==> #[trigger] encode_utf8(t[i].0).len() <= u64::MAX && encode_utf8(
                t[i].1,
            ).len() <= u64::MAX);
        lemma_pairs_seq_round_trip(t, rest);
        assert(seq![h] + t =~= l);
    }
}

/// Round trip for counted pair lists.
pub proof fn lemma_pairs_list_round_trip(l: Seq<(Seq<char>, Seq<char>)>, rest: Seq<u8>)
    requires
        l.len() <= u64::MAX,
        forall|i: int|
            0 <= i < l.len() ==> #[trigger] encode_utf8(l[i].0).len() <= u64::MAX && encode_utf8(
                l[i].1,
            ).len() <= u64::MAX,
    ensures
        spec_parse_pairs_list(spec_pairs_list_bytes(l) + rest) == Some(
            (l, spec_pairs_list_bytes(l).len() as int),
        ),
{
    let cenc = spec_varint_bytes(l.len() as u64);
    let s = spec_pairs_list_bytes(l) + rest;
    assert(s =~= cenc + (spec_pairs_seq_bytes(l) + rest));
    lemma_varint_round_trip(l.len() as u64, spec_pairs_seq_bytes(l) + rest);
    let n = cenc.len() as int;
    assert(s.skip(n) =~= spec_pairs_seq_bytes(l) + rest);
    lemma_pairs_seq_round_trip(l, rest);
}

/// Glues a parsed pair prefix onto the outcome of parsing the remainder.
pub open spec fn spec_chain_pairs(
    prefix: Seq<(Seq<char>, Seq<char>)>,
    used: int,
    rest: Option<(Seq<(Seq<char>, Seq<char>)>, int)>,
) -> Option<(Seq<(Seq<char>, Seq<char>)>, int)> {
    match rest {
        None => None,
        Some((l, m)) => Some((prefix + l, used + m)),
    }
}

/// Appends the counted encoding of a list of string pairs.
pub fn write_pairs_list(l: &Vec<(String, String)>, out: &mut Vec<u8>)
    ensures
        final(out)@ == old(out)@ + spec_pairs_list_bytes(pairs_view(l@)),
{
    let ghost dv = pairs_view(l@);
    write_varint(l.len() as u64, out);
    let ghost base = out@;
    let mut i: usize = 0;
    while i < l.len()
        invariant
            i <= l@.len(),
            dv == pairs_view(l@),
            dv.len() == l@.len(),
            out@ == base + spec_pairs_seq_bytes(dv.take(i as int)),
        decreases l@.len() - i,
    {
        write_str(l[i].0.as_str(), out);
        write_str(l[i].1.as_str(), out);
        proof {
            assert(dv[i as int] == (l@[i as int].0@, l@[i as int].1@));
            lemma_pairs_seq_bytes_push(dv.take(i as int), dv[i as int]);
            assert(dv.take(i as int).push(dv[i as int]) =~= dv.take(i as int + 1));
            assert((base + spec_pairs_seq_bytes(dv.take(i as int)) + spec_str_bytes(
                l@[i as int].0@,
            )) + spec_str_bytes(l@[i as int].1@) =~= base + (spec_pairs_seq_bytes(
                dv.take(i as int),
            ) + spec_pair_bytes(dv[i as int])));
        }
        i += 1;
    }
    proof {
        assert(dv.take(l@.len() as int) =~= dv);
        assert(out@ =~= old(out)@ + spec_pairs_list_bytes(dv));
    }
}

/// Reads the pair at `pos`.
pub fn read_pair(bytes: &Vec<u8>, pos: usize) -> (r: Option<((String, String), usize)>)
    requires
        pos <= bytes@.len(),
    ensures
        match spec_parse_pair(bytes@.skip(pos as int)) {
            None => r is None,
            Some(p) => r matches Some(rr) && (rr.0.0@, rr.0.1@) == p.0 && rr.1 == pos + p.1 && rr.1
                <= bytes@.len(),
        },
{
    let ghost s = bytes@.skip(pos as int);
    match read_str(bytes, pos) {
        None => None,
        Some((k, p)) => {
            proof {
                lemma_parse_str_bounds(s);
                let n = spec_parse_str(s)->Some_0.1;
                assert(s.skip(n) =~= bytes@.skip(pos + n));
            }
            match read_str(bytes, p) {
                None => None,
                Some((v, q)) => Some(((k, v), q)),
            }
        },
    }
}

/// Reads the counted pair list at `pos`.
pub fn read_pairs_list(bytes: &Vec<u8>, pos: usize) -> (r: Option<(Vec<(String, String)>, usize)>)
    requires
        pos <= bytes@.len(),
    ensures
        match spec_parse_pairs_list(bytes@.skip(pos as int)) {
            None => r is None,
            Some(p) => r matches Some(rr) && pairs_view(rr.0@) == p.0 && rr.1 == pos + p.1 && rr.1
                <= bytes@.len(),
        },
{
    let ghost s0 = bytes@.skip(pos as int);
    match read_varint(bytes, pos) {
        None => None,
        Some((cnt, start)) => {
            let ghost n0: int = start - pos;
            let mut out: Vec<(String, String)> = Vec::new();
            let mut cur: usize = start;
            let mut remaining: u64 = cnt;
            proof {
                lemma_parse_varint_bounds(s0);
                assert(spec_parse_varint(s0) matches Some(pv) && pv.0 == cnt && pv.1 == n0);
                assert(pairs_view(out@) =~= Seq::<(Seq<char>, Seq<char>)>::empty());
                assert(s0.skip(n0) =~= bytes@.skip(start as int));
                assert(spec_chain_pairs(
                    Seq::<(Seq<char>, Seq<char>)>::empty(),
                    0,
                    spec_parse_pairs_seq(bytes@.skip(start as int), cnt as nat),
                ) == spec_parse_pairs_seq(s0.skip(n0), cnt as nat)) by {
                    match spec_parse_pairs_seq(bytes@.skip(start as int), cnt as nat) {
                        Some((l, m)) => {
                            assert(Seq::<(Seq<char>, Seq<char>)>::empty() + l =~= l);
                        },
                        None => {},
                    }
                }
            }
            while remaining > 0
                invariant
                    pos <= cur <= bytes@.len(),
                    remaining <= cnt,
                    s0 == bytes@.skip(pos as int),
                    0 <= n0 && pos + n0 <= bytes@.len(),
                    spec_parse_varint(s0) matches Some(pv) && pv.0 == cnt && pv.1 == n0,
                    spec_parse_pairs_seq(s0.skip(n0), cnt as nat) == spec_chain_pairs(
                        pairs_view(out@),
                        cur - pos - n0,
                        spec_parse_pairs_seq(bytes@.skip(cur as int), remaining as nat),
                    ),
                decreases remaining,
            {
                let ghost dv0 = pairs_view(out@);
                let ghost scur = bytes@.skip(cur as int);
                match read_pair(bytes, cur) {
                    None => {
                        proof {
                            assert(spec_parse_pairs_seq(bytes@.skip(cur as int), remaining as nat)
                                is None);
                            assert(spec_parse_pairs_seq(s0.skip(n0), cnt as nat) is None);
                            assert(spec_parse_pairs_list(s0) is None);
                        }
                        return None;
                    },
                    Some((item, q)) => {
                        proof {
                            lemma_parse_pair_bounds(scur);
                            let p = spec_parse_pair(scur)->Some_0;
                            assert(scur.skip(p.1) =~= bytes@.skip(cur + p.1));
                            match spec_parse_pairs_seq(
                                bytes@.skip(cur + p.1),
                                (remaining - 1) as nat,
                            ) {
                                Some((l, m)) => {
                                    assert(dv0 + (seq![p.0] + l) =~= dv0.push(p.0) + l);
                                },
                                None => {},
                            }
                        }
                        out.push(item);
                        proof {
                            assert(pairs_view(out@) =~= dv0.push((out@.last().0@, out@.last().1@)));
                        }
                        cur = q;
                        remaining = remaining - 1;
                    },
                }
            }
            proof {
                assert(spec_parse_pairs_seq(bytes@.skip(cur as int), 0) == Some(
                    (Seq::<(Seq<char>, Seq<char>)>::empty(), 0int),
                ));
                assert(pairs_view(out@) + Seq::<(Seq<char>, Seq<char>)>::empty() =~= pairs_view(
                    out@,
                ));
            }
            Some((out, cur))
        },
    }
}

/// Glues a parsed prefix onto the outcome of parsing the remainder.
pub open spec fn spec_chain(
    prefix: Seq<Seq<char>>,
    used: int,
    rest: Option<(Seq<Seq<char>>, int)>,
) -> Option<(Seq<Seq<char>>, int)> {
    match rest {
        None => None,
        Some((l, m)) => Some((prefix + l, used + m)),
    }
}

/// Appends the counted encoding of a list of strings.
pub fn write_str_list(l: &Vec<String>, out: &mut Vec<u8>)
    ensures
        final(out)@ == old(out)@ + spec_str_list_bytes(l.deep_view()),
{
    let ghost dv = l.deep_view();
    write_varint(l.len() as u64, out);
    let ghost base = out@;
    let mut i: usize = 0;
    while i < l.len()
        invariant
            i <= l@.len(),
            dv == l.deep_view(),
            dv.len() == l@.len(),
            forall|k: int| 0 <= k < l@.len() ==> #[trigger] dv[k] == l@[k]@,
            out@ == base + spec_str_seq_bytes(dv.take(i as int)),
        decreases l@.len() - i,
    {
        write_str(l[i].as_str(), out);
        proof {
            lemma_str_seq_bytes_push(dv.take(i as int), dv[i as int]);
            assert(dv.take(i as int).push(dv[i as int]) =~= dv.take(i as int + 1));
        }
        i += 1;
    }
    proof {
        assert(dv.take(l@.len() as int) =~= dv);
        assert(out@ =~= old(out)@ + spec_str_list_bytes(dv));
    }
}

/// Reads the counted string list at `pos`.
pub fn read_str_list(bytes: &Vec<u8>, pos: usize) -> (r: Option<(Vec<String>, usize)>)
    requires
        pos <= bytes@.len(),
    ensures
        match spec_parse_str_list(bytes@.skip(pos as int)) {
            None => r is None,
            Some(p) => r matches Some(rr) && rr.0.deep_view() == p.0 && rr.1 == pos + p.1 && rr.1
                <= bytes@.len(),
        },
{
    let ghost s0 = bytes@.skip(pos as int);
    match read_varint(bytes, pos) {
        None => None,
        Some((cnt, start)) => {
            let ghost n0: int = start - pos;
            let mut out: Vec<String> = Vec::new();
            let mut cur: usize = start;
            let mut remaining: u64 = cnt;
            proof {
                lemma_parse_varint_bounds(s0);
                assert(spec_parse_varint(s0) matches Some(pv) && pv.0 == cnt && pv.1 == n0);
                assert(out.deep_view() =~= Seq::<Seq<char>>::empty());
                assert(s0.skip(n0 as int) =~= bytes@.skip(start as int));
                assert(spec_chain(
                    Seq::<Seq<char>>::empty(),
                    0,
                    spec_parse_str_seq(bytes@.skip(start as int), cnt as nat),
                ) == spec_parse_str_seq(s0.skip(n0 as int), cnt as nat)) by {
                    match spec_parse_str_seq(bytes@.skip(start as int), cnt as nat) {
                        Some((l, m)) => {
                            assert(Seq::<Seq<char>>::empty() + l =~= l);
                        },
                        None => {},
                    }
                }
            }
            while remaining > 0
                invariant
                    pos <= cur <= bytes@.len(),
                    remaining <= cnt,
                    s0 == bytes@.skip(pos as int),
                    0 <= n0 && pos + n0 <= bytes@.len(),
                    spec_parse_varint(s0) matches Some(pv) && pv.0 == cnt && pv.1 == n0,
                    spec_parse_str_seq(s0.skip(n0 as int), cnt as nat) == spec_chain(
                        out.deep_view(),
                        cur - pos - n0,
                        spec_parse_str_seq(bytes@.skip(cur as int), remaining as nat),
                    ),
                decreases remaining,
            {
                let ghost dv0 = out.deep_view();
                let ghost scur = bytes@.skip(cur as int);
                match read_str(bytes, cur) {
                    None => {
                        proof {
                            assert(spec_parse_str_seq(bytes@.skip(cur as int), remaining as nat)
                                is None);
                            assert(spec_parse_str_seq(s0.skip(n0), cnt as nat) is None);
                            assert(spec_parse_varint(s0) matches Some(pv) && pv.0 == cnt && pv.1
                                == n0);
                            assert(spec_parse_str_list(s0) is None);
                        }
                        return None;
                    },
                    Some((item, q)) => {
                        proof {
                            lemma_parse_str_bounds(scur);
                            let p = spec_parse_str(scur)->Some_0;
                            assert(scur.skip(p.1) =~= bytes@.skip(cur + p.1));
                            match spec_parse_str_seq(bytes@.skip(cur + p.1), (remaining - 1) as nat) {
                                Some((l, m)) => {
                                    assert(dv0 + (seq![p.0] + l) =~= dv0.push(p.0) + l);
                                },
                                None => {},
                            }
                        }
                        out.push(item);
                        proof {
                            assert(out.deep_view() =~= dv0.push(item@));
                        }
                        cur = q;
                        remaining = remaining - 1;
                    },
                }
            }
            proof {
                assert(spec_parse_str_seq(bytes@.skip(cur as int), 0) == Some(
                    (Seq::<Seq<char>>::empty(), 0int),
                ));
                assert(out.deep_view() + Seq::<Seq<char>>::empty() =~= out.deep_view());
            }
            Some((out, cur))
        },
    }
}

} // verus!
