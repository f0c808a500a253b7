//! The codec's laws: how the reference parser behaves on prefixes and
//! extensions of a frame region, that decoding inverts encoding, and that
//! the length scanner, the parsers and the decoders agree.
use vstd::prelude::*;

verus! {

use crate::model::all_digits;
use crate::model::crlf;
use crate::model::dec_digits;
use crate::model::digits_val;
use crate::model::elems_enc;
use crate::model::elems_wf;
use crate::model::find_crlf;
use crate::model::fits_i64;
use crate::model::fold_insert;
use crate::model::frame_enc;
use crate::model::frame_wf;
use crate::model::i64_max;
use crate::model::int_text;
use crate::model::is_digit;
use crate::model::key_lt;
use crate::model::lemma_map_insert_split;
use crate::model::len_text;
use crate::model::line_ok;
use crate::model::map_entries_sorted;
use crate::model::map_insert;
use crate::model::no_crlf;
use crate::model::pairs_enc;
use crate::model::pairs_wf;
use crate::model::str_of;
use crate::model::FrameVal;
use vstd::utf8::encode_utf8;
use crate::model::int_of_line;
use crate::model::lemma_elems_bounds;
use crate::model::lemma_find_crlf_bounds;
use crate::model::lemma_pairs_bounds;
use crate::model::lemma_parse_bounds;
use crate::model::parse_elems;
use crate::model::parse_pairs;
use crate::model::parse_spec;
use crate::model::Scanned;

broadcast use vstd::utf8::encode_utf8_valid_utf8, vstd::utf8::encode_utf8_decode_utf8;

/// Where two buffers agree up to a terminator's end, the terminator search
/// agrees too; a buffer cut before the terminator's end finds none.
pub proof fn lemma_find_crlf_agree(s1: Seq<u8>, s2: Seq<u8>, from: int, e: int)
    requires
        find_crlf(s1, from) == Some(e),
        forall|i: int| from <= i && i < e + 2 && i < s2.len() ==> s1[i] == #[trigger] s2[i],
    ensures
        s2.len() >= e + 2 ==> find_crlf(s2, from) == Some(e),
        s2.len() < e + 2 ==> find_crlf(s2, from) is None,
    decreases e - from,
{
    lemma_find_crlf_bounds(s1, from);
    if s1[from] == 13 && s1[from + 1] == 10 {
        assert(e == from);
    } else {
        if from + 2 <= s2.len() {
            assert(s2[from] == s1[from] && s2[from + 1] == s1[from + 1]);
            lemma_find_crlf_agree(s1, s2, from + 1, e);
        }
    }
}

/// Parsing looks only at the bytes of the frame region it returns: any
/// buffer that carries the same first `n` bytes parses to the same frame,
/// and any buffer cut short inside those `n` bytes is incomplete.
pub proof fn lemma_parse_agree(s1: Seq<u8>, s2: Seq<u8>)
    requires
        parse_spec(s1) is Done,
        forall|i: int|
            0 <= i && i < parse_spec(s1)->Done_1 && i < s2.len() ==> s1[i] == #[trigger] s2[i],
    ensures
        s2.len() >= parse_spec(s1)->Done_1 ==> parse_spec(s2) == parse_spec(s1),
        s2.len() < parse_spec(s1)->Done_1 ==> parse_spec(s2) is Incomplete,
    decreases s1.len(), 0int, 0int,
{
    lemma_parse_bounds(s1);
    let n = parse_spec(s1)->Done_1;
    let b = s1[0];
    if s2.len() == 0 {
        return ;
    }
    assert(s2[0] == b);
    if b == 43 || b == 45 || b == 58 || b == 44 {
        let e = choose|e: int| find_crlf(s1, 1) == Some(e);
        assert(find_crlf(s1, 1) == Some(e));
        lemma_find_crlf_bounds(s1, 1);
        assert(n == e + 2);
        lemma_find_crlf_agree(s1, s2, 1, e);
        if s2.len() >= e + 2 {
            assert(s2.subrange(1, e) =~= s1.subrange(1, e));
        }
    } else if b == 36 {
        let e = choose|e: int| find_crlf(s1, 1) == Some(e);
        assert(find_crlf(s1, 1) == Some(e));
        lemma_find_crlf_bounds(s1, 1);
        match int_of_line(s1.subrange(1, e)) {
            Some(v) => {
                if v == -1 {
                    assert(n == e + 2);
                    lemma_find_crlf_agree(s1, s2, 1, e);
                    if s2.len() >= e + 2 {
                        assert(s2.subrange(1, e) =~= s1.subrange(1, e));
                    }
                } else {
                    assert(v >= 0);
                    assert(n == e + 4 + v);
                    lemma_find_crlf_agree(s1, s2, 1, e);
                    if s2.len() >= e + 2 {
                        assert(s2.subrange(1, e) =~= s1.subrange(1, e));
                        if s2.len() >= n {
                            assert(s2[e + 2 + v] == s1[e + 2 + v]);
                            assert(s2[e + 3 + v] == s1[e + 3 + v]);
                            assert(s2.subrange(e + 2, e + 2 + v) =~= s1.subrange(
                                e + 2,
                                e + 2 + v,
                            ));
                        }
                    }
                }
            },
            None => {
                assert(false);
            },
        }
    } else if b == 42 || b == 126 {
        let e = choose|e: int| find_crlf(s1, 1) == Some(e);
        assert(find_crlf(s1, 1) == Some(e));
        lemma_find_crlf_bounds(s1, 1);
        match int_of_line(s1.subrange(1, e)) {
            Some(v) => {
                if b == 42 && v == -1 {
                    assert(n == e + 2);
                    lemma_find_crlf_agree(s1, s2, 1, e);
                    if s2.len() >= e + 2 {
                        assert(s2.subrange(1, e) =~= s1.subrange(1, e));
                    }
                } else {
                    assert(v >= 0);
                    let u1 = s1.skip(e + 2);
                    lemma_elems_bounds(u1, v as nat);
                    match parse_elems(u1, v as nat) {
                        Scanned::Done(es, m) => {
                            assert(n == e + 2 + m);
                            lemma_find_crlf_agree(s1, s2, 1, e);
                            if s2.len() >= e + 2 {
                                assert(s2.subrange(1, e) =~= s1.subrange(1, e));
                                let u2 = s2.skip(e + 2);
                                assert forall|i: int|
                                    0 <= i && i < m && i < u2.len() implies u1[i]
                                    == #[trigger] u2[i] by {
                                    assert(u1[i] == s1[e + 2 + i]);
                                    assert(u2[i] == s2[e + 2 + i]);
                                }
                                lemma_elems_agree(u1, u2, v as nat);
                            }
                        },
                        _ => {
                            assert(false);
                        },
                    }
                }
            },
            None => {
                assert(false);
            },
        }
    } else if b == 37 {
        let e = choose|e: int| find_crlf(s1, 1) == Some(e);
        assert(find_crlf(s1, 1) == Some(e));
        lemma_find_crlf_bounds(s1, 1);
        match int_of_line(s1.subrange(1, e)) {
            Some(v) => {
                assert(v > 0);
                let u1 = s1.skip(e + 2);
                lemma_pairs_bounds(u1, v as nat);
                match parse_pairs(u1, v as nat) {
                    Scanned::Done(ps, m) => {
                        assert(n == e + 2 + m);
                        lemma_find_crlf_agree(s1, s2, 1, e);
                        if s2.len() >= e + 2 {
                            assert(s2.subrange(1, e) =~= s1.subrange(1, e));
                            let u2 = s2.skip(e + 2);
                            assert forall|i: int|
                                0 <= i && i < m && i < u2.len() implies u1[i]
                                == #[trigger] u2[i] by {
                                assert(u1[i] == s1[e + 2 + i]);
                                assert(u2[i] == s2[e + 2 + i]);
                            }
                            lemma_pairs_agree(u1, u2, v as nat);
                        }
                    },
                    _ => {
                        assert(false);
                    },
                }
            },
            None => {
                assert(false);
            },
        }
    } else if b == 95 {
        assert(n == 3);
        if s2.len() >= 2 {
            assert(s2[1] == s1[1]);
        }
        if s2.len() >= 3 {
            assert(s2[2] == s1[2]);
        }
    } else if b == 35 {
        assert(n == 4);
        if s2.len() >= 2 {
            assert(s2[1] == s1[1]);
        }
        if s2.len() >= 3 {
            assert(s2[2] == s1[2]);
        }
        if s2.len() >= 4 {
            assert(s2[3] == s1[3]);
        }
    }
}

/// `lemma_parse_agree`, lifted to a run of `k` frames.
pub proof fn lemma_elems_agree(s1: Seq<u8>, s2: Seq<u8>, k: nat)
    requires
        parse_elems(s1, k) is Done,
        forall|i: int|
            0 <= i && i < parse_elems(s1, k)->Done_1 && i < s2.len() ==> s1[i] == #[trigger] s2[i],
    ensures
        s2.len() >= parse_elems(s1, k)->Done_1 ==> parse_elems(s2, k) == parse_elems(s1, k),
        s2.len() < parse_elems(s1, k)->Done_1 ==> parse_elems(s2, k) is Incomplete,
    decreases s1.len(), k, 1int,
{
    if k == 0 {
    } else {
        lemma_parse_bounds(s1);
        match parse_spec(s1) {
            Scanned::Done(f, n1) => {
                let r1 = s1.skip(n1);
                lemma_elems_bounds(r1, (k - 1) as nat);
                match parse_elems(r1, (k - 1) as nat) {
                    Scanned::Done(es, m2) => {
                        assert(parse_elems(s1, k)->Done_1 == n1 + m2);
                        lemma_parse_agree(s1, s2);
                        if s2.len() >= n1 {
                            let r2 = s2.skip(n1);
                            assert forall|i: int|
                                0 <= i && i < m2 && i < r2.len() implies r1[i]
                                == #[trigger] r2[i] by {
                                assert(r1[i] == s1[n1 + i]);
                                assert(r2[i] == s2[n1 + i]);
                            }
                            lemma_elems_agree(r1, r2, (k - 1) as nat);
                        }
                    },
                    _ => {
                        assert(false);
                    },
                }
            },
            _ => {
                assert(false);
            },
        }
    }
}

/// `lemma_parse_agree`, lifted to a run of `k` key-value pairs.
pub proof fn lemma_pairs_agree(s1: Seq<u8>, s2: Seq<u8>, k: nat)
    requires
        parse_pairs(s1, k) is Done,
        forall|i: int|
            0 <= i && i < parse_pairs(s1, k)->Done_1 && i < s2.len() ==> s1[i] == #[trigger] s2[i],
    ensures
        s2.len() >= parse_pairs(s1, k)->Done_1 ==> parse_pairs(s2, k) == parse_pairs(s1, k),
        s2.len() < parse_pairs(s1, k)->Done_1 ==> parse_pairs(s2, k) is Incomplete,
    decreases s1.len(), k, 1int,
{
    if k == 0 {
    } else {
        let e = choose|e: int| find_crlf(s1, 1) == Some(e);
        assert(find_crlf(s1, 1) == Some(e));
        lemma_find_crlf_bounds(s1, 1);
        let u1 = s1.skip(e + 2);
        lemma_parse_bounds(u1);
        match parse_spec(u1) {
            Scanned::Done(f, n1) => {
                let r1 = u1.skip(n1);
                assert(r1 =~= s1.skip(e + 2 + n1));
                lemma_pairs_bounds(r1, (k - 1) as nat);
                match parse_pairs(r1, (k - 1) as nat) {
                    Scanned::Done(ps, m2) => {
                        let m = parse_pairs(s1, k)->Done_1;
                        assert(m == e + 2 + n1 + m2);
                        if s2.len() == 0 {
                            assert(parse_pairs(s2, k) is Incomplete);
                            return ;
                        }
                        assert(s2[0] == s1[0]);
                        lemma_find_crlf_agree(s1, s2, 1, e);
                        if s2.len() >= e + 2 {
                            assert(s2.subrange(1, e) =~= s1.subrange(1, e));
                            let u2 = s2.skip(e + 2);
                            assert forall|i: int|
                                0 <= i && i < n1 + m2 && i < u2.len() implies u1[i]
                                == #[trigger] u2[i] by {
                                assert(u1[i] == s1[e + 2 + i]);
                                assert(u2[i] == s2[e + 2 + i]);
                            }
                            lemma_parse_agree(u1, u2);
                            if u2.len() >= n1 {
                                let r2 = u2.skip(n1);
                                assert(r2 =~= s2.skip(e + 2 + n1));
                                assert forall|i: int|
                                    0 <= i && i < m2 && i < r2.len() implies r1[i]
                                    == #[trigger] r2[i] by {
                                    assert(r1[i] == u1[n1 + i]);
                                    assert(r2[i] == u2[n1 + i]);
                                }
                                lemma_pairs_agree(r1, r2, (k - 1) as nat);
                                if s2.len() >= m {
                                    assert(u2.skip(n1) =~= s2.skip(e + 2 + n1));
                                }
                            }
                        }
                    },
                    _ => {
                        assert(false);
                    },
                }
            },
            _ => {
                assert(false);
            },
        }
    }
}

/// Partial-buffer stability: a well-formed frame region truncated at any
/// byte boundary strictly before its end reads as incomplete, never as
/// malformed and never as a successful parse.
pub proof fn lemma_truncation_incomplete(s: Seq<u8>, m: int)
    requires
        parse_spec(s) is Done,
        0 <= m < parse_spec(s)->Done_1,
    ensures
        parse_spec(s.take(m)) is Incomplete,
{
    lemma_parse_bounds(s);
    lemma_parse_agree(s, s.take(m));
}

/// Nested consistency: slicing exactly the scanned length out of a buffer
/// and parsing that slice succeeds, yields the same frame, and consumes the
/// whole slice.
pub proof fn lemma_exact_slice(s: Seq<u8>)
    requires
        parse_spec(s) is Done,
    ensures
        parse_spec(s.take(parse_spec(s)->Done_1)) == parse_spec(s),
{
    lemma_parse_bounds(s);
    lemma_parse_agree(s, s.take(parse_spec(s)->Done_1));
}

/// Idempotent length scan: a length-scan result and a decode result for
/// the same buffer agree — the scanner succeeds exactly when the decoder
/// does, and then names exactly the byte count the decoder consumes.
pub proof fn lemma_scan_counts_decode(
    before: Seq<u8>,
    after: Seq<u8>,
    n: Result<usize, crate::frame::RespError>,
    d: Result<crate::frame::RespFrame, crate::frame::RespError>,
)
    requires
        crate::frame::scan_result(parse_spec(before), n),
        crate::decode::decode_result(before, after, d),
    ensures
        d is Ok <==> n is Ok,
        d is Ok ==> (n matches Ok(m) && after == before.skip(m as int) && before.len() - m
            == after.len()),
{
    lemma_parse_bounds(before);
}

/// The decimal digits of `n` are digit bytes and read back as `n`.
pub proof fn lemma_dec_digits(n: nat)
    ensures
        dec_digits(n).len() >= 1,
        all_digits(dec_digits(n)),
        digits_val(dec_digits(n)) == n,
    decreases n,
{
    if n < 10 {
        assert(dec_digits(n) =~= seq![(48 + n) as u8]);
        assert(dec_digits(n).drop_last() =~= Seq::<u8>::empty());
        assert(digits_val(Seq::<u8>::empty()) == 0);
        assert(dec_digits(n).last() == (48 + n) as u8);
        assert((48 + n) as u8 == 48 + n);
    } else {
        lemma_dec_digits(n / 10);
        let d = dec_digits(n / 10);
        assert(d.push((48 + n % 10) as u8).drop_last() =~= d);
        assert((48 + n % 10) as u8 == 48 + n % 10);
        assert(digits_val(dec_digits(n)) == digits_val(d) * 10 + ((48 + n % 10) as u8 - 48));
        assert(digits_val(dec_digits(n)) == (n / 10) * 10 + n % 10);
    }
}

/// An integer payload written by the encoder reads back as the same value.
pub proof fn lemma_int_text(v: int)
    ensures
        crate::model::int_of_line(int_text(v)) == Some(v),
        forall|i: int| 0 <= i < int_text(v).len() ==> #[trigger] int_text(v)[i] != 13,
    decreases 0int,
{
    if v < 0 {
        lemma_dec_digits((-v) as nat);
        let p = int_text(v);
        assert(p[0] == 45);
        assert(p.drop_first() =~= dec_digits((-v) as nat));
    } else {
        lemma_dec_digits(v as nat);
        let p = int_text(v);
        assert(p[0] == 43);
        assert(p.drop_first() =~= dec_digits(v as nat));
    }
}

/// A length payload written by the encoder reads back as the same length.
pub proof fn lemma_len_text(n: nat)
    ensures
        crate::model::int_of_line(len_text(n)) == Some(n as int),
        forall|i: int| 0 <= i < len_text(n).len() ==> #[trigger] len_text(n)[i] != 13,
{
    lemma_dec_digits(n);
    let p = len_text(n);
    assert(is_digit(p[0]));
}

/// Where the terminator first stands at `e`, the search finds it.
pub proof fn lemma_find_crlf_exact(s: Seq<u8>, from: int, e: int)
    requires
        0 <= from <= e,
        e + 2 <= s.len(),
        s[e] == 13,
        s[e + 1] == 10,
        forall|i: int| from <= i < e ==> !(#[trigger] s[i] == 13 && s[i + 1] == 10),
    ensures
        find_crlf(s, from) == Some(e),
    decreases e - from,
{
    if from < e {
        lemma_find_crlf_exact(s, from + 1, e);
    }
}

/// A header line `tag` + `payload` + CRLF whose payload holds no CR byte
/// terminates first exactly at the payload's end.
pub proof fn lemma_header_crlf(s: Seq<u8>, e: int)
    requires
        1 <= e,
        e + 2 <= s.len(),
        s[e] == 13,
        s[e + 1] == 10,
        forall|i: int| 1 <= i < e ==> #[trigger] s[i] != 13,
    ensures
        find_crlf(s, 1) == Some(e),
{
    lemma_find_crlf_exact(s, 1, e);
}

/// A text line: its payload may hold CR bytes but no CRLF pair, and the
/// byte after the payload is CR followed by LF, so the search still ends
/// exactly at the payload's end.
pub proof fn lemma_text_crlf(s: Seq<u8>, e: int)
    requires
        1 <= e,
        e + 2 <= s.len(),
        s[e] == 13,
        s[e + 1] == 10,
        no_crlf(s.subrange(1, e)),
    ensures
        find_crlf(s, 1) == Some(e),
{
    let x = s.subrange(1, e);
    assert forall|i: int| 1 <= i < e implies !(#[trigger] s[i] == 13 && s[i + 1] == 10) by {
        if i < e - 1 {
            assert(x[i - 1] == s[i]);
            assert(x[i] == s[i + 1]);
        } else {
            assert(s[i + 1] == 13);
        }
    }
    lemma_find_crlf_exact(s, 1, e);
}

/// Folding an already key-sorted entry list changes nothing.
pub proof fn lemma_fold_sorted(es: Seq<(Seq<char>, FrameVal)>)
    requires
        map_entries_sorted(es),
    ensures
        fold_insert(es) == es,
    decreases es.len(),
{
    if es.len() > 0 {
        let d = es.drop_last();
        assert(map_entries_sorted(d));
        lemma_fold_sorted(d);
        assert(forall|i: int| 0 <= i < d.len() ==> key_lt((#[trigger] d[i]).0, es.last().0));
        lemma_map_insert_split(d, es.last().0, es.last().1, d.len() as int);
        assert(d.push(es.last()) =~= es);
    }
}

/// Round trip: the canonical encoding of every well-formed frame parses
/// back to exactly that frame, consuming exactly the encoding.
#[verifier::rlimit(100)]
pub proof fn lemma_roundtrip(f: FrameVal)
    requires
        frame_wf(f),
    ensures
        parse_spec(frame_enc(f)) == Scanned::Done(f, frame_enc(f).len() as int),
    decreases f, 1int,
{
    let s = frame_enc(f);
    match f {
        FrameVal::SimpleString(t) => {
            lemma_line_frame(s, 43, t);
            assert(s[0] == 43);
            assert(s.len() == encode_utf8(t).len() + 3);
            assert(parse_spec(s) is Done);
            assert(parse_spec(s)->Done_1 == s.len());
            assert(parse_spec(s)->Done_0 == f);
            assert(parse_spec(s) == Scanned::Done(f, s.len() as int));
        },
        FrameVal::Error(t) => {
            lemma_line_frame(s, 45, t);
            assert(s[0] == 45);
            assert(s.len() == encode_utf8(t).len() + 3);
        },
        FrameVal::Double(t) => {
            lemma_line_frame(s, 44, t);
            assert(s[0] == 44);
            assert(s.len() == encode_utf8(t).len() + 3);
        },
        FrameVal::Integer(v) => {
            let p = int_text(v);
            lemma_int_text(v);
            let e = p.len() as int + 1;
            assert(s =~= seq![58u8] + p + crlf());
            assert(s[e] == 13 && s[e + 1] == 10);
            assert forall|i: int| 1 <= i < e implies #[trigger] s[i] != 13 by {
                assert(s[i] == p[i - 1]);
            }
            lemma_header_crlf(s, e);
            assert(s.subrange(1, e) =~= p);
        },
        FrameVal::BulkString(b) => {
            let d = len_text(b.len());
            lemma_len_text(b.len());
            lemma_dec_digits(b.len());
            let e = d.len() as int + 1;
            assert(s =~= seq![36u8] + d + crlf() + b + crlf());
            assert(s[e] == 13 && s[e + 1] == 10);
            assert forall|i: int| 1 <= i < e implies #[trigger] s[i] != 13 by {
                assert(s[i] == d[i - 1]);
            }
            lemma_header_crlf(s, e);
            assert(s.subrange(1, e) =~= d);
            assert(s.len() == e + 4 + b.len());
            assert(s[e + 2 + b.len()] == 13 && s[e + 3 + b.len()] == 10);
            assert(s.subrange(e + 2, e + 2 + b.len() as int) =~= b);
        },
        FrameVal::NullBulkString => {
            assert(s =~= seq![36u8, 45u8, 49u8, 13u8, 10u8]);
            lemma_find_crlf_exact(s, 1, 3);
            assert(s.subrange(1, 3) =~= seq![45u8, 49u8]);
            assert(s.subrange(1, 3).drop_first() =~= seq![49u8]);
            assert(digits_val(seq![49u8]) == 1) by {
                assert(seq![49u8].drop_last() =~= Seq::<u8>::empty());
                assert(digits_val(Seq::<u8>::empty()) == 0);
                assert(seq![49u8].last() == 49u8);
            }
        },
        FrameVal::NullArray => {
            assert(s =~= seq![42u8, 45u8, 49u8, 13u8, 10u8]);
            lemma_find_crlf_exact(s, 1, 3);
            assert(s.subrange(1, 3) =~= seq![45u8, 49u8]);
            assert(s.subrange(1, 3).drop_first() =~= seq![49u8]);
            assert(digits_val(seq![49u8]) == 1) by {
                assert(seq![49u8].drop_last() =~= Seq::<u8>::empty());
                assert(digits_val(Seq::<u8>::empty()) == 0);
                assert(seq![49u8].last() == 49u8);
            }
        },
        FrameVal::Null => {
            assert(s =~= seq![95u8, 13u8, 10u8]);
        },
        FrameVal::Boolean(x) => {
            assert(s =~= seq![35u8, if x { 116u8 } else { 102u8 }, 13u8, 10u8]);
            assert(s[1] != 13);
        },
        FrameVal::Array(es) => {
            lemma_aggregate_frame(s, 42, es);
            lemma_len_text(es.len());
            assert(s[0] == 42);
            assert(s.len() == len_text(es.len()).len() + 3 + elems_enc(es).len());
            assert(parse_spec(s) == Scanned::Done(f, s.len() as int));
        },
        FrameVal::SetData(es) => {
            lemma_aggregate_frame(s, 126, es);
            lemma_len_text(es.len());
            assert(s[0] == 126);
            assert(s.len() == len_text(es.len()).len() + 3 + elems_enc(es).len());
            assert(parse_spec(s) == Scanned::Done(f, s.len() as int));
        },
        FrameVal::MapData(es) => {
            let d = len_text(es.len());
            lemma_len_text(es.len());
            let e = d.len() as int + 1;
            assert(s =~= seq![37u8] + d + crlf() + pairs_enc(es));
            assert(s[e] == 13 && s[e + 1] == 10);
            assert forall|i: int| 1 <= i < e implies #[trigger] s[i] != 13 by {
                assert(s[i] == d[i - 1]);
            }
            lemma_header_crlf(s, e);
            assert(s.subrange(1, e) =~= d);
            assert(s.skip(e + 2) =~= pairs_enc(es));
            lemma_pairs_roundtrip(es);
            assert(parse_pairs(pairs_enc(es), es.len()) == Scanned::Done(
                es,
                pairs_enc(es).len() as int,
            ));
            lemma_fold_sorted(es);
        },
    }
}

/// Shared body for the three text-line frames.
proof fn lemma_line_frame(s: Seq<u8>, tag: u8, t: Seq<char>)
    requires
        line_ok(t),
        s == seq![tag] + encode_utf8(t) + crlf(),
    ensures
        find_crlf(s, 1) == Some(1 + encode_utf8(t).len() as int),
        s.subrange(1, 1 + encode_utf8(t).len() as int) == encode_utf8(t),
        str_of(encode_utf8(t)) == t,
{
    let x = encode_utf8(t);
    let e = 1 + x.len() as int;
    assert(s[e] == 13 && s[e + 1] == 10);
    assert(s.subrange(1, e) =~= x);
    lemma_text_crlf(s, e);
}

/// Shared body for the array and set frames.
proof fn lemma_aggregate_frame(s: Seq<u8>, tag: u8, es: Seq<FrameVal>)
    requires
        s == seq![tag] + len_text(es.len()) + crlf() + elems_enc(es),
        elems_wf(es),
        es.len() <= i64_max(),
        tag == 42 || tag == 126,
    ensures
        find_crlf(s, 1) == Some(len_text(es.len()).len() as int + 1),
        parse_elems(s.skip(len_text(es.len()).len() as int + 3), es.len()) == Scanned::Done(
            es,
            elems_enc(es).len() as int,
        ),
        s.subrange(1, len_text(es.len()).len() as int + 1) == len_text(es.len()),
    decreases es, 3int,
{
    let d = len_text(es.len());
    lemma_len_text(es.len());
    let e = d.len() as int + 1;
    assert(s[e] == 13 && s[e + 1] == 10);
    assert forall|i: int| 1 <= i < e implies #[trigger] s[i] != 13 by {
        assert(s[i] == d[i - 1]);
    }
    lemma_header_crlf(s, e);
    assert(s.subrange(1, e) =~= d);
    assert(s.skip(e + 2) =~= elems_enc(es));
    lemma_elems_roundtrip(es);
}

/// A run of well-formed encoded frames parses back to exactly those
/// frames.
pub proof fn lemma_elems_roundtrip(es: Seq<FrameVal>)
    requires
        elems_wf(es),
    ensures
        parse_elems(elems_enc(es), es.len()) == Scanned::Done(es, elems_enc(es).len() as int),
    decreases es, 2int,
{
    if es.len() == 0 {
        assert(elems_enc(es) =~= Seq::<u8>::empty());
        assert(parse_elems(elems_enc(es), 0) == Scanned::Done(
            Seq::<FrameVal>::empty(),
            0int,
        ));
        assert(es =~= Seq::<FrameVal>::empty());
    } else {
        let h = frame_enc(es[0]);
        let rest = elems_enc(es.drop_first());
        let u = elems_enc(es);
        assert(u == h + rest);
        lemma_roundtrip(es[0]);
        lemma_parse_bounds(h);
        assert forall|i: int| 0 <= i && i < h.len() && i < u.len() implies h[i]
            == #[trigger] u[i] by {
            assert(u[i] == h[i]);
        }
        lemma_parse_agree(h, u);
        assert(parse_spec(u) == Scanned::Done(es[0], h.len() as int));
        assert(u.skip(h.len() as int) =~= rest);
        lemma_elems_roundtrip(es.drop_first());
        assert(seq![es[0]] + es.drop_first() =~= es);
    }
}

/// A run of well-formed encoded key-value pairs parses back to exactly
/// those pairs, in wire order.
pub proof fn lemma_pairs_roundtrip(es: Seq<(Seq<char>, FrameVal)>)
    requires
        pairs_wf(es),
    ensures
        parse_pairs(pairs_enc(es), es.len()) == Scanned::Done(es, pairs_enc(es).len() as int),
    decreases es, 2int,
{
    if es.len() == 0 {
        assert(pairs_enc(es) =~= Seq::<u8>::empty());
        assert(es =~= Seq::<(Seq<char>, FrameVal)>::empty());
    } else {
        let t = es[0].0;
        let x = encode_utf8(t);
        let hv = frame_enc(es[0].1);
        let rest = pairs_enc(es.drop_first());
        let u = pairs_enc(es);
        assert(u == seq![43u8] + x + crlf() + hv + rest);
        let e = 1 + x.len() as int;
        assert(u[0] == 43);
        assert(u[e] == 13 && u[e + 1] == 10);
        assert(u.subrange(1, e) =~= x);
        lemma_text_crlf(u, e);
        lemma_roundtrip(es[0].1);
        lemma_parse_bounds(hv);
        let w = u.skip(e + 2);
        assert(w =~= hv + rest);
        assert forall|i: int| 0 <= i && i < hv.len() && i < w.len() implies hv[i]
            == #[trigger] w[i] by {
            assert(w[i] == hv[i]);
        }
        lemma_parse_agree(hv, w);
        assert(parse_spec(w) == Scanned::Done(es[0].1, hv.len() as int));
        assert(u.skip(e + 2 + hv.len()) =~= rest);
        lemma_pairs_roundtrip(es.drop_first());
        assert(str_of(x) == t);
        assert(seq![(str_of(x), es[0].1)] + es.drop_first() =~= es);
    }
}

} // verus!
