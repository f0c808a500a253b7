//! Mathematical model of the wire protocol: the value model, the canonical
//! encoding of every value, and a reference parser over byte sequences.
//! Every executable encoder and decoder in this crate is specified against
//! the functions in this module.
use vstd::prelude::*;

verus! {

use vstd::utf8::decode_utf8;
use vstd::utf8::encode_utf8;
use vstd::utf8::valid_utf8;

/// The character sequence `String::from_utf8_lossy` yields for these bytes;
/// a function of the bytes alone. Only payloads that are not valid UTF-8
/// reach it (see `str_of`); valid ones are pinned to `decode_utf8`.
pub uninterp spec fn lossy_utf8(bytes: Seq<u8>) -> Seq<char>;

/// The text a line payload decodes to: exactly its UTF-8 characters when
/// the bytes are valid UTF-8, and the lossy replacement otherwise.
pub open spec fn str_of(bytes: Seq<u8>) -> Seq<char> {
    if valid_utf8(bytes) {
        decode_utf8(bytes)
    } else {
        lossy_utf8(bytes)
    }
}

/// The two-byte line terminator that ends every scalar frame and every
/// aggregate header on the wire.
pub open spec fn crlf() -> Seq<u8> {
    seq![13u8, 10u8]
}

/// One wire value, in mathematical form. Text is a sequence of characters,
/// binary payloads are byte sequences, and aggregates hold their decoded
/// children. A map holds its entries ordered by key (see `map_entries_sorted`).
pub enum FrameVal {
    SimpleString(Seq<char>),
    Error(Seq<char>),
    Integer(int),
    BulkString(Seq<u8>),
    NullBulkString,
    Array(Seq<FrameVal>),
    NullArray,
    Null,
    Boolean(bool),
    Double(Seq<char>),
    MapData(Seq<(Seq<char>, FrameVal)>),
    SetData(Seq<FrameVal>),
}

/// Outcome of parsing from the front of a byte sequence: not enough bytes
/// yet, a grammar violation, or a result together with the exact number of
/// bytes it occupies.
pub enum Scanned<T> {
    Incomplete,
    Malformed,
    Done(T, int),
}

pub open spec fn i64_min() -> int {
    -0x8000_0000_0000_0000
}

pub open spec fn i64_max() -> int {
    0x7fff_ffff_ffff_ffff
}

pub open spec fn fits_i64(v: int) -> bool {
    i64_min() <= v <= i64_max()
}

pub open spec fn is_digit(b: u8) -> bool {
    48 <= b <= 57
}

pub open spec fn all_digits(p: Seq<u8>) -> bool {
    forall|i: int| 0 <= i < p.len() ==> is_digit(#[trigger] p[i])
}

/// Numeric value of a sequence of decimal digit bytes.
pub open spec fn digits_val(p: Seq<u8>) -> int
    decreases p.len(),
{
    if p.len() == 0 {
        0
    } else {
        digits_val(p.drop_last()) * 10 + (p.last() - 48)
    }
}

/// Decimal digits of a non-negative number, most significant first.
pub open spec fn dec_digits(n: nat) -> Seq<u8>
    decreases n,
{
    if n < 10 {
        seq![(48 + n) as u8]
    } else {
        dec_digits(n / 10).push((48 + n % 10) as u8)
    }
}

/// The textual form this protocol uses for an integer frame's payload: an
/// explicit `+` for non-negative values, `-` otherwise.
pub open spec fn int_text(v: int) -> Seq<u8> {
    if v < 0 {
        seq![45u8] + dec_digits((-v) as nat)
    } else {
        seq![43u8] + dec_digits(v as nat)
    }
}

/// The textual form of a declared length in an aggregate or bulk header:
/// bare digits, no sign.
pub open spec fn len_text(n: nat) -> Seq<u8> {
    dec_digits(n)
}

/// Value of a `[+|-]digits` payload, or `None` if the payload does not have
/// that shape.
pub open spec fn int_of_line(p: Seq<u8>) -> Option<int> {
    if p.len() >= 1 && (p[0] == 43 || p[0] == 45) {
        let d = p.drop_first();
        if d.len() >= 1 && all_digits(d) {
            if p[0] == 45 {
                Some(-digits_val(d))
            } else {
                Some(digits_val(d))
            }
        } else {
            None
        }
    } else if p.len() >= 1 && all_digits(p) {
        Some(digits_val(p))
    } else {
        None
    }
}

/// Position of the first CRLF pair at or after `from`, if any.
pub open spec fn find_crlf(s: Seq<u8>, from: int) -> Option<int>
    decreases s.len() - from,
{
    if from < 0 || from + 2 > s.len() {
        None
    } else if s[from] == 13 && s[from + 1] == 10 {
        Some(from)
    } else {
        find_crlf(s, from + 1)
    }
}

pub open spec fn no_crlf(s: Seq<u8>) -> bool {
    forall|i: int| 0 <= i && i + 2 <= s.len() ==> !(#[trigger] s[i] == 13 && s[i + 1] == 10)
}

/// Position of the first occurrence of byte `b` at or after `from`, if any.
pub open spec fn find_byte(s: Seq<u8>, b: u8, from: int) -> Option<int>
    decreases s.len() - from,
{
    if from < 0 || from >= s.len() {
        None
    } else if s[from] == b {
        Some(from)
    } else {
        find_byte(s, b, from + 1)
    }
}

pub open spec fn lower(b: u8) -> u8 {
    if 65 <= b <= 90 {
        (b + 32) as u8
    } else {
        b
    }
}

pub open spec fn is_special_float(q: Seq<u8>) -> bool {
    ||| (q.len() == 3 && lower(q[0]) == 105 && lower(q[1]) == 110 && lower(q[2]) == 102)
    ||| (q.len() == 8 && lower(q[0]) == 105 && lower(q[1]) == 110 && lower(q[2]) == 102
        && lower(q[3]) == 105 && lower(q[4]) == 110 && lower(q[5]) == 105 && lower(q[6]) == 116
        && lower(q[7]) == 121)
    ||| (q.len() == 3 && lower(q[0]) == 110 && lower(q[1]) == 97 && lower(q[2]) == 110)
}

/// Digits with at most one decimal point, and at least one digit somewhere:
/// `12`, `12.`, `12.5`, `.5`.
pub open spec fn is_mantissa(p: Seq<u8>) -> bool {
    match find_byte(p, 46, 0) {
        None => p.len() >= 1 && all_digits(p),
        Some(d) => {
            let ip = p.subrange(0, d);
            let fp = p.subrange(d + 1, p.len() as int);
            all_digits(ip) && all_digits(fp) && (ip.len() >= 1 || fp.len() >= 1)
        },
    }
}

pub open spec fn strip_sign(p: Seq<u8>) -> Seq<u8> {
    if p.len() >= 1 && (p[0] == 43 || p[0] == 45) {
        p.drop_first()
    } else {
        p
    }
}

/// The floating-point literal grammar the double frame accepts:
/// `[+|-] (mantissa [ (e|E) [+|-] digits ] | inf | infinity | nan)`.
pub open spec fn is_double_payload(p: Seq<u8>) -> bool {
    let q = strip_sign(p);
    ||| is_special_float(q)
    ||| {
        match find_byte(q, 101, 0) {
            Some(e) => is_mantissa(q.subrange(0, e))
                && exp_digits_ok(q.subrange(e + 1, q.len() as int)),
            None => match find_byte(q, 69, 0) {
                Some(e) => is_mantissa(q.subrange(0, e))
                    && exp_digits_ok(q.subrange(e + 1, q.len() as int)),
                None => is_mantissa(q),
            },
        }
    }
}

pub open spec fn exp_digits_ok(p: Seq<u8>) -> bool {
    let q = strip_sign(p);
    q.len() >= 1 && all_digits(q)
}

/// Byte-wise lexicographic order, the deterministic order map keys are kept
/// in (equal to the order of their UTF-8 encodings).
pub open spec fn bytes_lt(a: Seq<u8>, b: Seq<u8>) -> bool
    decreases a.len(),
{
    if b.len() == 0 {
        false
    } else if a.len() == 0 {
        true
    } else if a[0] < b[0] {
        true
    } else if a[0] == b[0] {
        bytes_lt(a.drop_first(), b.drop_first())
    } else {
        false
    }
}

pub open spec fn key_lt(a: Seq<char>, b: Seq<char>) -> bool {
    bytes_lt(encode_utf8(a), encode_utf8(b))
}

/// Insert an entry into a key-ordered entry list, replacing an entry whose
/// key is already present.
pub open spec fn map_insert(
    es: Seq<(Seq<char>, FrameVal)>,
    k: Seq<char>,
    v: FrameVal,
) -> Seq<(Seq<char>, FrameVal)>
    decreases es.len(),
{
    if es.len() == 0 {
        seq![(k, v)]
    } else if key_lt(k, es[0].0) {
        seq![(k, v)] + es
    } else if k == es[0].0 {
        seq![(k, v)] + es.drop_first()
    } else {
        seq![es[0]] + map_insert(es.drop_first(), k, v)
    }
}

/// Fold the entries of a decoded map, in wire order, into an ordered entry
/// list; a later duplicate key replaces an earlier one.
pub open spec fn fold_insert(ps: Seq<(Seq<char>, FrameVal)>) -> Seq<(Seq<char>, FrameVal)>
    decreases ps.len(),
{
    if ps.len() == 0 {
        Seq::empty()
    } else {
        map_insert(fold_insert(ps.drop_last()), ps.last().0, ps.last().1)
    }
}

pub open spec fn map_entries_sorted(es: Seq<(Seq<char>, FrameVal)>) -> bool {
    forall|i: int, j: int| 0 <= i < j < es.len() ==> key_lt(#[trigger] es[i].0, #[trigger] es[j].0)
}

/// Canonical encoding of one frame.
pub open spec fn frame_enc(f: FrameVal) -> Seq<u8>
    decreases f, 1int,
{
    match f {
        FrameVal::SimpleString(t) => seq![43u8] + encode_utf8(t) + crlf(),
        FrameVal::Error(t) => seq![45u8] + encode_utf8(t) + crlf(),
        FrameVal::Integer(v) => seq![58u8] + int_text(v) + crlf(),
        FrameVal::BulkString(b) => seq![36u8] + len_text(b.len()) + crlf() + b + crlf(),
        FrameVal::NullBulkString => seq![36u8, 45u8, 49u8, 13u8, 10u8],
        FrameVal::Array(es) => seq![42u8] + len_text(es.len()) + crlf() + elems_enc(es),
        FrameVal::NullArray => seq![42u8, 45u8, 49u8, 13u8, 10u8],
        FrameVal::Null => seq![95u8, 13u8, 10u8],
        FrameVal::Boolean(b) => seq![35u8, if b { 116u8 } else { 102u8 }, 13u8, 10u8],
        FrameVal::Double(t) => seq![44u8] + encode_utf8(t) + crlf(),
        FrameVal::MapData(es) => seq![37u8] + len_text(es.len()) + crlf() + pairs_enc(es),
        FrameVal::SetData(es) => seq![126u8] + len_text(es.len()) + crlf() + elems_enc(es),
    }
}

pub open spec fn elems_enc(es: Seq<FrameVal>) -> Seq<u8>
    decreases es, 0int,
{
    if es.len() == 0 {
        Seq::empty()
    } else {
        frame_enc(es[0]) + elems_enc(es.drop_first())
    }
}

pub open spec fn pairs_enc(es: Seq<(Seq<char>, FrameVal)>) -> Seq<u8>
    decreases es, 0int,
{
    if es.len() == 0 {
        Seq::empty()
    } else {
        seq![43u8] + encode_utf8(es[0].0) + crlf() + frame_enc(es[0].1) + pairs_enc(
            es.drop_first(),
        )
    }
}

/// A line-oriented text payload that the encoder may emit: its UTF-8 form
/// contains no CRLF pair, so the decoder finds the terminator the encoder
/// wrote.
pub open spec fn line_ok(t: Seq<char>) -> bool {
    no_crlf(encode_utf8(t))
}

/// The frames whose canonical encoding decodes back to the same value: text
/// payloads do not contain the line terminator, declared lengths fit the
/// wire's signed 64-bit headers, map entries are sorted with no duplicate
/// keys, a double's text is a floating-point literal, and map and set counts
/// are positive.
pub open spec fn frame_wf(f: FrameVal) -> bool
    decreases f, 1int,
{
    match f {
        FrameVal::SimpleString(t) => line_ok(t),
        FrameVal::Error(t) => line_ok(t),
        FrameVal::Integer(v) => fits_i64(v),
        FrameVal::BulkString(b) => b.len() <= i64_max(),
        FrameVal::NullBulkString => true,
        FrameVal::Array(es) => es.len() <= i64_max() && elems_wf(es),
        FrameVal::NullArray => true,
        FrameVal::Null => true,
        FrameVal::Boolean(_) => true,
        FrameVal::Double(t) => line_ok(t) && is_double_payload(encode_utf8(t)),
        FrameVal::MapData(es) => 1 <= es.len() <= i64_max() && map_entries_sorted(es) && pairs_wf(es),
        FrameVal::SetData(es) => 1 <= es.len() <= i64_max() && elems_wf(es),
    }
}

pub open spec fn elems_wf(es: Seq<FrameVal>) -> bool
    decreases es, 0int,
{
    if es.len() == 0 {
        true
    } else {
        frame_wf(es[0]) && elems_wf(es.drop_first())
    }
}

pub open spec fn pairs_wf(es: Seq<(Seq<char>, FrameVal)>) -> bool
    decreases es, 0int,
{
    if es.len() == 0 {
        true
    } else {
        line_ok(es[0].0) && frame_wf(es[0].1) && pairs_wf(es.drop_first())
    }
}

/// Reference parser: the outcome of decoding one frame from the front of
/// `s`. Both decoding strategies, and the length scanner, are specified
/// against this function.
pub open spec fn parse_spec(s: Seq<u8>) -> Scanned<FrameVal>
    decreases s.len(), 0int, 0int,
{
    if s.len() == 0 {
        Scanned::Incomplete
    } else if s[0] == 43 {
        match find_crlf(s, 1) {
            None => Scanned::Incomplete,
            Some(e) => Scanned::Done(
                FrameVal::SimpleString(str_of(s.subrange(1, e))),
                e + 2,
            ),
        }
    } else if s[0] == 45 {
        match find_crlf(s, 1) {
            None => Scanned::Incomplete,
            Some(e) => Scanned::Done(FrameVal::Error(str_of(s.subrange(1, e))), e + 2),
        }
    } else if s[0] == 58 {
        match find_crlf(s, 1) {
            None => Scanned::Incomplete,
            Some(e) => match int_of_line(s.subrange(1, e)) {
                None => Scanned::Malformed,
                Some(v) => if fits_i64(v) {
                    Scanned::Done(FrameVal::Integer(v), e + 2)
                } else {
                    Scanned::Malformed
                },
            },
        }
    } else if s[0] == 36 {
        match find_crlf(s, 1) {
            None => Scanned::Incomplete,
            Some(e) => match int_of_line(s.subrange(1, e)) {
                None => Scanned::Malformed,
                Some(v) => if !fits_i64(v) {
                    Scanned::Malformed
                } else if v == -1 {
                    Scanned::Done(FrameVal::NullBulkString, e + 2)
                } else if v < -1 {
                    Scanned::Malformed
                } else if e + 4 + v > s.len() {
                    Scanned::Incomplete
                } else if s[e + 2 + v] == 13 && s[e + 3 + v] == 10 {
                    Scanned::Done(FrameVal::BulkString(s.subrange(e + 2, e + 2 + v)), e + 4 + v)
                } else {
                    Scanned::Malformed
                },
            },
        }
    } else if s[0] == 42 {
        match find_crlf(s, 1) {
            None => Scanned::Incomplete,
            Some(e) => match int_of_line(s.subrange(1, e)) {
                None => Scanned::Malformed,
                Some(v) => if !fits_i64(v) {
                    Scanned::Malformed
                } else if v == -1 {
                    Scanned::Done(FrameVal::NullArray, e + 2)
                } else if v < -1 {
                    Scanned::Malformed
                } else if 1 <= e && e + 2 <= s.len() {
                    match parse_elems(s.skip(e + 2), v as nat) {
                        Scanned::Incomplete => Scanned::Incomplete,
                        Scanned::Malformed => Scanned::Malformed,
                        Scanned::Done(es, n) => Scanned::Done(FrameVal::Array(es), e + 2 + n),
                    }
                } else {
                    Scanned::Malformed
                },
            },
        }
    } else if s[0] == 95 {
        if s.len() >= 2 && s[1] != 13 {
            Scanned::Malformed
        } else if s.len() >= 3 && s[2] != 10 {
            Scanned::Malformed
        } else if s.len() < 3 {
            Scanned::Incomplete
        } else {
            Scanned::Done(FrameVal::Null, 3)
        }
    } else if s[0] == 35 {
        if s.len() < 2 {
            Scanned::Incomplete
        } else if s[1] != 116 && s[1] != 102 {
            Scanned::Malformed
        } else if s.len() >= 3 && s[2] != 13 {
            Scanned::Malformed
        } else if s.len() >= 4 && s[3] != 10 {
            Scanned::Malformed
        } else if s.len() < 4 {
            Scanned::Incomplete
        } else {
            Scanned::Done(FrameVal::Boolean(s[1] == 116), 4)
        }
    } else if s[0] == 44 {
        match find_crlf(s, 1) {
            None => Scanned::Incomplete,
            Some(e) => if is_double_payload(s.subrange(1, e)) {
                Scanned::Done(FrameVal::Double(str_of(s.subrange(1, e))), e + 2)
            } else {
                Scanned::Malformed
            },
        }
    } else if s[0] == 37 {
        match find_crlf(s, 1) {
            None => Scanned::Incomplete,
            Some(e) => match int_of_line(s.subrange(1, e)) {
                None => Scanned::Malformed,
                Some(v) => if !fits_i64(v) || v <= 0 {
                    Scanned::Malformed
                } else if 1 <= e && e + 2 <= s.len() {
                    match parse_pairs(s.skip(e + 2), v as nat) {
                        Scanned::Incomplete => Scanned::Incomplete,
                        Scanned::Malformed => Scanned::Malformed,
                        Scanned::Done(ps, n) => Scanned::Done(
                            FrameVal::MapData(fold_insert(ps)),
                            e + 2 + n,
                        ),
                    }
                } else {
                    Scanned::Malformed
                },
            },
        }
    } else if s[0] == 126 {
        match find_crlf(s, 1) {
            None => Scanned::Incomplete,
            Some(e) => match int_of_line(s.subrange(1, e)) {
                None => Scanned::Malformed,
                Some(v) => if !fits_i64(v) || v <= 0 {
                    Scanned::Malformed
                } else if 1 <= e && e + 2 <= s.len() {
                    match parse_elems(s.skip(e + 2), v as nat) {
                        Scanned::Incomplete => Scanned::Incomplete,
                        Scanned::Malformed => Scanned::Malformed,
                        Scanned::Done(es, n) => Scanned::Done(FrameVal::SetData(es), e + 2 + n),
                    }
                } else {
                    Scanned::Malformed
                },
            },
        }
    } else {
        Scanned::Malformed
    }
}

/// Outcome of decoding exactly `k` frames from the front of `s`.
pub open spec fn parse_elems(s: Seq<u8>, k: nat) -> Scanned<Seq<FrameVal>>
    decreases s.len(), k, 1int,
{
    if k == 0 {
        Scanned::Done(Seq::empty(), 0)
    } else {
        match parse_spec(s) {
            Scanned::Incomplete => Scanned::Incomplete,
            Scanned::Malformed => Scanned::Malformed,
            Scanned::Done(f, n) => if 1 <= n <= s.len() {
                match parse_elems(s.skip(n), (k - 1) as nat) {
                    Scanned::Incomplete => Scanned::Incomplete,
                    Scanned::Malformed => Scanned::Malformed,
                    Scanned::Done(es, m) => Scanned::Done(seq![f] + es, n + m),
                }
            } else {
                Scanned::Malformed
            },
        }
    }
}

/// Outcome of decoding exactly `k` key-value pairs (a simple-string key,
/// then a value frame) from the front of `s`, in wire order.
pub open spec fn parse_pairs(s: Seq<u8>, k: nat) -> Scanned<Seq<(Seq<char>, FrameVal)>>
    decreases s.len(), k, 1int,
{
    if k == 0 {
        Scanned::Done(Seq::empty(), 0)
    } else if s.len() == 0 {
        Scanned::Incomplete
    } else if s[0] != 43 {
        Scanned::Malformed
    } else {
        match find_crlf(s, 1) {
            None => Scanned::Incomplete,
            Some(e) => if 1 <= e && e + 2 <= s.len() {
                let key = str_of(s.subrange(1, e));
                match parse_spec(s.skip(e + 2)) {
                    Scanned::Incomplete => Scanned::Incomplete,
                    Scanned::Malformed => Scanned::Malformed,
                    Scanned::Done(v, n) => if 1 <= n <= s.len() - e - 2 {
                        match parse_pairs(s.skip(e + 2 + n), (k - 1) as nat) {
                            Scanned::Incomplete => Scanned::Incomplete,
                            Scanned::Malformed => Scanned::Malformed,
                            Scanned::Done(ps, m) => Scanned::Done(
                                seq![(key, v)] + ps,
                                e + 2 + n + m,
                            ),
                        }
                    } else {
                        Scanned::Malformed
                    },
                }
            } else {
                Scanned::Malformed
            },
        }
    }
}

/// Left-to-right fold of wire pairs into an entry list, starting from an
/// accumulator.
pub open spec fn fold_from(
    a: Seq<(Seq<char>, FrameVal)>,
    ps: Seq<(Seq<char>, FrameVal)>,
) -> Seq<(Seq<char>, FrameVal)>
    decreases ps.len(),
{
    if ps.len() == 0 {
        a
    } else {
        fold_from(map_insert(a, ps[0].0, ps[0].1), ps.drop_first())
    }
}

pub proof fn lemma_fold_from_push(
    a: Seq<(Seq<char>, FrameVal)>,
    ps: Seq<(Seq<char>, FrameVal)>,
    p: (Seq<char>, FrameVal),
)
    ensures
        fold_from(a, ps.push(p)) == map_insert(fold_from(a, ps), p.0, p.1),
    decreases ps.len(),
{
    if ps.len() == 0 {
        assert(ps.push(p)[0] == p);
        assert(ps.push(p).drop_first() =~= Seq::<(Seq<char>, FrameVal)>::empty());
        assert(fold_from(a, ps.push(p)) == fold_from(
            map_insert(a, p.0, p.1),
            Seq::<(Seq<char>, FrameVal)>::empty(),
        ));
        assert(fold_from(a, ps) == a);
    } else {
        assert(ps.push(p)[0] == ps[0]);
        assert(ps.push(p).drop_first() =~= ps.drop_first().push(p));
        let a1 = map_insert(a, ps[0].0, ps[0].1);
        lemma_fold_from_push(a1, ps.drop_first(), p);
        assert(fold_from(a, ps.push(p)) == fold_from(a1, ps.drop_first().push(p)));
        assert(fold_from(a, ps) == fold_from(a1, ps.drop_first()));
    }
}

/// The two formulations of folding a pair list agree.
pub proof fn lemma_fold_insert_is_fold_from(ps: Seq<(Seq<char>, FrameVal)>)
    ensures
        fold_insert(ps) == fold_from(Seq::empty(), ps),
    decreases ps.len(),
{
    if ps.len() > 0 {
        lemma_fold_insert_is_fold_from(ps.drop_last());
        lemma_fold_from_push(Seq::empty(), ps.drop_last(), ps.last());
        assert(ps.drop_last().push(ps.last()) =~= ps);
    }
}

/// Two character sequences are equal exactly when their UTF-8 encodings
/// are.
pub proof fn lemma_key_eq(a: Seq<char>, b: Seq<char>)
    ensures
        (encode_utf8(a) == encode_utf8(b)) <==> (a == b),
{
    broadcast use vstd::utf8::encode_utf8_decode_utf8;

    if encode_utf8(a) == encode_utf8(b) {
        assert(decode_utf8(encode_utf8(a)) == a);
        assert(decode_utf8(encode_utf8(b)) == b);
    }
}

/// Byte-wise lexicographic order is a strict total order: exactly one of
/// `a < b`, `a == b`, `b < a` holds.
pub proof fn lemma_bytes_lt_trichotomy(a: Seq<u8>, b: Seq<u8>)
    ensures
        bytes_lt(a, b) || a == b || bytes_lt(b, a),
        bytes_lt(a, b) ==> !(a == b) && !bytes_lt(b, a),
        a == b ==> !bytes_lt(a, b) && !bytes_lt(b, a),
    decreases a.len(),
{
    if a.len() == 0 && b.len() == 0 {
        assert(a =~= b);
    } else if a.len() > 0 && b.len() > 0 {
        if a[0] == b[0] {
            lemma_bytes_lt_trichotomy(a.drop_first(), b.drop_first());
            if a.drop_first() == b.drop_first() {
                assert(a.len() == b.len());
                assert forall|i: int| 0 <= i < a.len() implies a[i] == b[i] by {
                    if i > 0 {
                        assert(a.drop_first()[i - 1] == a[i]);
                        assert(b.drop_first()[i - 1] == b[i]);
                    }
                }
                assert(a =~= b);
            }
            if a == b {
                assert(a.drop_first() =~= b.drop_first());
            }
        }
    }
}

/// Where the first `j` keys are below `k`, inserting `k` leaves them in
/// place; at `j` it either replaces an equal key, stands before a greater
/// key, or extends the list.
pub proof fn lemma_map_insert_split(
    es: Seq<(Seq<char>, FrameVal)>,
    k: Seq<char>,
    v: FrameVal,
    j: int,
)
    requires
        0 <= j <= es.len(),
        forall|i: int| 0 <= i < j ==> key_lt((#[trigger] es[i]).0, k),
    ensures
        j == es.len() ==> map_insert(es, k, v) == es.push((k, v)),
        j < es.len() && es[j].0 == k ==> map_insert(es, k, v) == es.update(j, (k, v)),
        j < es.len() && key_lt(k, es[j].0) ==> map_insert(es, k, v) == es.take(j) + seq![(k, v)]
            + es.skip(j),
    decreases j,
{
    if j == 0 {
        if 0 < es.len() {
            if es[0].0 == k {
                assert(seq![(k, v)] + es.drop_first() =~= es.update(0, (k, v)));
                lemma_bytes_lt_trichotomy(encode_utf8(k), encode_utf8(es[0].0));
            } else if key_lt(k, es[0].0) {
                assert(seq![(k, v)] + es =~= es.take(0) + seq![(k, v)] + es.skip(0));
            }
        } else {
            assert(seq![(k, v)] =~= es.push((k, v)));
        }
    } else {
        let t = es.drop_first();
        assert(key_lt(es[0].0, k));
        lemma_bytes_lt_trichotomy(encode_utf8(es[0].0), encode_utf8(k));
        lemma_key_eq(es[0].0, k);
        assert(!key_lt(k, es[0].0));
        assert(es[0].0 != k);
        assert(forall|i: int| 0 <= i < j - 1 ==> key_lt((#[trigger] t[i]).0, k));
        lemma_map_insert_split(t, k, v, j - 1);
        if j == es.len() {
            assert(map_insert(t, k, v) == t.push((k, v)));
            assert(seq![es[0]] + t.push((k, v)) =~= es.push((k, v)));
        } else if es[j].0 == k {
            assert(t[j - 1] == es[j]);
            assert(map_insert(t, k, v) == t.update(j - 1, (k, v)));
            assert(seq![es[0]] + t.update(j - 1, (k, v)) =~= es.update(j, (k, v)));
        } else if key_lt(k, es[j].0) {
            assert(t[j - 1] == es[j]);
            assert(map_insert(t, k, v) == t.take(j - 1) + seq![(k, v)] + t.skip(j - 1));
            assert(seq![es[0]] + (t.take(j - 1) + seq![(k, v)] + t.skip(j - 1)) =~= es.take(j)
                + seq![(k, v)] + es.skip(j));
        }
    }
}

/// Appending one frame to an element list appends its encoding.
pub proof fn lemma_elems_enc_snoc(es: Seq<FrameVal>)
    requires
        es.len() >= 1,
    ensures
        elems_enc(es) == elems_enc(es.drop_last()) + frame_enc(es.last()),
    decreases es.len(),
{
    if es.len() == 1 {
        assert(es.drop_first() =~= Seq::<FrameVal>::empty());
        assert(es.drop_last() =~= Seq::<FrameVal>::empty());
        assert(elems_enc(es) =~= elems_enc(es.drop_last()) + frame_enc(es.last()));
    } else {
        let t = es.drop_first();
        lemma_elems_enc_snoc(t);
        assert(t.drop_last() =~= es.drop_last().drop_first());
        assert(t.last() == es.last());
        assert(es.drop_last()[0] == es[0]);
        assert(elems_enc(es) =~= elems_enc(es.drop_last()) + frame_enc(es.last()));
    }
}

/// Appending one entry to a map entry list appends its encoding.
pub proof fn lemma_pairs_enc_snoc(es: Seq<(Seq<char>, FrameVal)>)
    requires
        es.len() >= 1,
    ensures
        pairs_enc(es) == pairs_enc(es.drop_last()) + (seq![43u8] + encode_utf8(es.last().0)
            + crlf() + frame_enc(es.last().1)),
    decreases es.len(),
{
    if es.len() == 1 {
        assert(es.drop_first() =~= Seq::<(Seq<char>, FrameVal)>::empty());
        assert(es.drop_last() =~= Seq::<(Seq<char>, FrameVal)>::empty());
        assert(pairs_enc(es) =~= pairs_enc(es.drop_last()) + (seq![43u8] + encode_utf8(
            es.last().0,
        ) + crlf() + frame_enc(es.last().1)));
    } else {
        let t = es.drop_first();
        lemma_pairs_enc_snoc(t);
        assert(t.drop_last() =~= es.drop_last().drop_first());
        assert(t.last() == es.last());
        assert(es.drop_last()[0] == es[0]);
        assert(pairs_enc(es) =~= pairs_enc(es.drop_last()) + (seq![43u8] + encode_utf8(
            es.last().0,
        ) + crlf() + frame_enc(es.last().1)));
    }
}

/// A found terminator lies within the buffer, at or after `from`.
pub proof fn lemma_find_crlf_bounds(s: Seq<u8>, from: int)
    ensures
        match find_crlf(s, from) {
            Some(e) => from <= e && e + 2 <= s.len() && s[e] == 13 && s[e + 1] == 10,
            None => true,
        },
    decreases s.len() - from,
{
    if from >= 0 && from + 2 <= s.len() && !(s[from] == 13 && s[from + 1] == 10) {
        lemma_find_crlf_bounds(s, from + 1);
    }
}

/// A found byte lies within the buffer, at or after `from`.
pub proof fn lemma_find_byte_bounds(s: Seq<u8>, b: u8, from: int)
    ensures
        match find_byte(s, b, from) {
            Some(e) => from <= e && e < s.len() && s[e] == b,
            None => true,
        },
    decreases s.len() - from,
{
    if from >= 0 && from < s.len() && s[from] != b {
        lemma_find_byte_bounds(s, b, from + 1);
    }
}

/// A successfully parsed frame occupies between 3 bytes and the whole
/// buffer.
pub proof fn lemma_parse_bounds(s: Seq<u8>)
    ensures
        match parse_spec(s) {
            Scanned::Done(f, n) => 3 <= n <= s.len(),
            _ => true,
        },
    decreases s.len(), 0int, 0int,
{
    if s.len() > 0 {
        lemma_find_crlf_bounds(s, 1);
        if s[0] == 42 || s[0] == 37 || s[0] == 126 {
            match find_crlf(s, 1) {
                Some(e) => {
                    if 1 <= e && e + 2 <= s.len() {
                        match int_of_line(s.subrange(1, e)) {
                            Some(v) => if fits_i64(v) && v >= 0 {
                                if s[0] == 37 {
                                    lemma_pairs_bounds(s.skip(e + 2), v as nat);
                                } else {
                                    lemma_elems_bounds(s.skip(e + 2), v as nat);
                                }
                            } else {
                            },
                            None => {},
                        }
                    }
                },
                None => {},
            }
        }
    }
}

/// A successfully parsed element list occupies at most the whole buffer and
/// holds exactly the declared number of frames.
pub proof fn lemma_elems_bounds(s: Seq<u8>, k: nat)
    ensures
        match parse_elems(s, k) {
            Scanned::Done(es, m) => 0 <= m <= s.len() && es.len() == k,
            _ => true,
        },
    decreases s.len(), k, 1int,
{
    if k > 0 {
        lemma_parse_bounds(s);
        match parse_spec(s) {
            Scanned::Done(f, n) => {
                if 1 <= n <= s.len() {
                    lemma_elems_bounds(s.skip(n), (k - 1) as nat);
                }
            },
            _ => {},
        }
    }
}

/// A successfully parsed pair list occupies at most the whole buffer and
/// holds exactly the declared number of pairs.
pub proof fn lemma_pairs_bounds(s: Seq<u8>, k: nat)
    ensures
        match parse_pairs(s, k) {
            Scanned::Done(ps, m) => 0 <= m <= s.len() && ps.len() == k,
            _ => true,
        },
    decreases s.len(), k, 1int,
{
    if k > 0 && s.len() > 0 && s[0] == 43 {
        lemma_find_crlf_bounds(s, 1);
        match find_crlf(s, 1) {
            Some(e) => {
                if 1 <= e && e + 2 <= s.len() {
                    lemma_parse_bounds(s.skip(e + 2));
                    match parse_spec(s.skip(e + 2)) {
                        Scanned::Done(v, n) => {
                            if 1 <= n <= s.len() - e - 2 {
                                lemma_pairs_bounds(s.skip(e + 2 + n), (k - 1) as nat);
                            }
                        },
                        _ => {},
                    }
                }
            },
            None => {},
        }
    }
}

/// The ten type bytes the dispatch recognizes.
pub open spec fn frame_prefix(b: u8) -> bool {
    b == 43 || b == 45 || b == 58 || b == 36 || b == 42 || b == 95 || b == 35 || b == 44 || b == 37
        || b == 126
}

/// A non-empty buffer whose leading byte is not a frame's type byte.
pub open spec fn unknown_prefix(s: Seq<u8>) -> bool {
    s.len() > 0 && !frame_prefix(s[0])
}

/// A decoded frame's kind is determined by the leading type byte, and the
/// two aggregate type bytes decode only to their own kinds.
pub proof fn lemma_parse_kind(s: Seq<u8>)
    ensures
        parse_spec(s) is Done ==> s.len() > 0,
        parse_spec(s) is Done && parse_spec(s)->Done_0 is Array ==> s[0] == 42,
        parse_spec(s) is Done && parse_spec(s)->Done_0 is NullArray ==> s[0] == 42,
        parse_spec(s) is Done && parse_spec(s)->Done_0 is SetData ==> s[0] == 126,
        parse_spec(s) is Done && s[0] == 42 ==> (parse_spec(s)->Done_0 is Array || parse_spec(
            s,
        )->Done_0 is NullArray),
        parse_spec(s) is Done && s[0] == 126 ==> parse_spec(s)->Done_0 is SetData,
{
}

/// One step of a frame run: the first frame parses, and the rest of the
/// run continues after it.
pub proof fn lemma_elems_step(s: Seq<u8>, k: nat)
    requires
        k > 0,
        parse_elems(s, k) is Done,
    ensures
        parse_spec(s) is Done,
        ({
            let n1 = parse_spec(s)->Done_1;
            &&& 3 <= n1 <= s.len()
            &&& parse_elems(s.skip(n1), (k - 1) as nat) is Done
            &&& parse_elems(s, k)->Done_0 == seq![parse_spec(s)->Done_0] + parse_elems(
                s.skip(n1),
                (k - 1) as nat,
            )->Done_0
            &&& parse_elems(s, k)->Done_1 == n1 + parse_elems(s.skip(n1), (k - 1) as nat)->Done_1
        }),
{
    lemma_parse_bounds(s);
}

/// One step of a pair run: the key line and the value frame parse, and the
/// rest of the run continues after them.
pub proof fn lemma_pairs_step(s: Seq<u8>, k: nat)
    requires
        k > 0,
        parse_pairs(s, k) is Done,
    ensures
        s.len() > 0 && s[0] == 43,
        find_crlf(s, 1) is Some,
        ({
            let e = find_crlf(s, 1)->0;
            &&& 1 <= e && e + 2 <= s.len()
            &&& parse_spec(s.skip(e + 2)) is Done
            &&& ({
                let n1 = parse_spec(s.skip(e + 2))->Done_1;
                &&& 3 <= n1 <= s.len() - e - 2
                &&& parse_pairs(s.skip(e + 2 + n1), (k - 1) as nat) is Done
                &&& parse_pairs(s, k)->Done_0 == seq![
                    (str_of(s.subrange(1, e)), parse_spec(s.skip(e + 2))->Done_0),
                ] + parse_pairs(s.skip(e + 2 + n1), (k - 1) as nat)->Done_0
                &&& parse_pairs(s, k)->Done_1 == e + 2 + n1 + parse_pairs(
                    s.skip(e + 2 + n1),
                    (k - 1) as nat,
                )->Done_1
            })
        }),
{
    lemma_find_crlf_bounds(s, 1);
    lemma_parse_bounds(s.skip(find_crlf(s, 1)->0 + 2));
}

} // verus!
