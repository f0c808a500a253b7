//! Incremental decoding (the type-dispatch strategy): a per-kind length
//! scan over the buffered bytes, and a decoder that consumes one whole
//! frame from the front of a growable receive buffer — all of it on
//! success, none of it otherwise, so a caller can retry after more bytes
//! arrive.
use vstd::prelude::*;

verus! {

use crate::bytebuf::bm_advance;
use crate::bytebuf::bm_slice;
use crate::bytebuf::bm_view;
use crate::frame::arr_view;
use crate::frame::entries_insert;
use crate::frame::entries_view;
use crate::frame::err_frame;
use crate::frame::err_type;
use crate::frame::frame_view;
use crate::frame::scan_result;
use crate::frame::RespArray;
use crate::frame::RespError;
use crate::frame::RespFrame;
use crate::frame::RespSet;
use crate::model::fold_from;
use crate::model::lemma_elems_bounds;
use crate::model::lemma_elems_step;
use crate::model::lemma_find_crlf_bounds;
use crate::model::lemma_fold_insert_is_fold_from;
use crate::model::lemma_pairs_bounds;
use crate::model::lemma_pairs_step;
use crate::model::lemma_parse_bounds;
use crate::model::parse_elems;
use crate::model::parse_pairs;
use crate::model::parse_spec;
use crate::model::FrameVal;
use crate::model::unknown_prefix;
use crate::model::Scanned;
use crate::scan::find_crlf_exec;
use crate::scan::is_double_exec;
use crate::scan::line_string;
use crate::scan::parse_int_payload;
use crate::scan::slice_range;
use crate::scan::tail_from;

/// How this decoder reports one decode call against the reference parser:
/// the frame and exactly its bytes consumed on success, and the buffer left
/// untouched on either error.
pub open spec fn decode_result(
    before: Seq<u8>,
    after: Seq<u8>,
    r: Result<RespFrame, RespError>,
) -> bool {
    match parse_spec(before) {
        Scanned::Done(fv, n) => r matches Ok(f) && frame_view(f) == fv && after == before.skip(n),
        Scanned::Incomplete => r matches Err(e) && e is NotComplete && after == before,
        Scanned::Malformed => r matches Err(e) && !(e is NotComplete) && after == before && (
        unknown_prefix(before) ==> e is InvalidFrameType),
    }
}

impl RespFrame {
    /// Byte length of the next complete frame in `buf`, computed by
    /// dispatching on the leading type byte and walking declared lengths,
    /// without building any values.
    pub fn expect_length(buf: &[u8]) -> (r: Result<usize, RespError>)
        ensures
            scan_result(parse_spec(buf@), r),
            unknown_prefix(buf@) ==> (r matches Err(e) && e is InvalidFrameType),
    {
        frame_len(buf)
    }

    /// Decode one frame from the front of `buf`, consuming exactly its
    /// bytes on success and nothing at all when the buffer is incomplete or
    /// malformed.
    #[verifier::loop_isolation(false)]
    pub fn decode(buf: &mut bytes::BytesMut) -> (r: Result<RespFrame, RespError>)
        ensures
            decode_result(bm_view(*old(buf)), bm_view(*final(buf)), r),
        decreases bm_view(*buf).len(), 0int, 0int,
    {
        let n = {
            let s0 = bm_slice(buf);
            match RespFrame::expect_length(s0) {
                Ok(n) => n,
                Err(e) => {
                    return Err(e);
                },
            }
        };
        proof {
            lemma_parse_bounds(bm_view(*buf));
        }
        let ghost v0 = bm_view(*buf);
        let s = bm_slice(buf);
        let b = s[0];
        if b == 43 || b == 45 || b == 44 {
            let pay = slice_range(s, 1, n - 2);
            let text = line_string(pay);
            let f = if b == 43 {
                RespFrame::SimpleString(text)
            } else if b == 45 {
                RespFrame::Error(text)
            } else {
                RespFrame::Double(text)
            };
            bm_advance(buf, n);
            Ok(f)
        } else if b == 58 {
            let pay = slice_range(s, 1, n - 2);
            match parse_int_payload(pay) {
                Some(v) => {
                    bm_advance(buf, n);
                    Ok(RespFrame::Integer(v))
                },
                None => {
                    proof {
                        assert(false);
                    }
                    Err(err_frame("integer: bad numeric payload"))
                },
            }
        } else if b == 36 {
            match find_crlf_exec(s, 1) {
                Some(e) => {
                    proof {
                        lemma_find_crlf_bounds(v0, 1);
                    }
                    let pay = slice_range(s, 1, e);
                    match parse_int_payload(pay) {
                        Some(v) => {
                            if v == -1 {
                                bm_advance(buf, n);
                                Ok(RespFrame::NullBulkString)
                            } else {
                                let vu = v as usize;
                                let data = slice_range(s, e + 2, e + 2 + vu);
                                let body = vstd::slice::slice_to_vec(data);
                                bm_advance(buf, n);
                                Ok(RespFrame::BulkString(body))
                            }
                        },
                        None => {
                            proof {
                                assert(false);
                            }
                            Err(err_frame("bulk string: bad length"))
                        },
                    }
                },
                None => {
                    proof {
                        assert(false);
                    }
                    Err(RespError::NotComplete)
                },
            }
        } else if b == 95 {
            bm_advance(buf, 3);
            Ok(RespFrame::Null)
        } else if b == 35 {
            let t = s[1] == 116;
            bm_advance(buf, 4);
            Ok(RespFrame::Boolean(t))
        } else if b == 42 || b == 126 || b == 37 {
            match find_crlf_exec(s, 1) {
                Some(e) => {
                    proof {
                        lemma_find_crlf_bounds(v0, 1);
                    }
                    let pay = slice_range(s, 1, e);
                    match parse_int_payload(pay) {
                        Some(v) => {
                            if b == 42 && v == -1 {
                                bm_advance(buf, n);
                                Ok(RespFrame::NullArray)
                            } else if b == 37 {
                                bm_advance(buf, e + 2);
                                proof {
                                    lemma_pairs_bounds(bm_view(*buf), v as nat);
                                    assert(entries_view(Seq::<(String, RespFrame)>::empty())
                                        =~= Seq::<(Seq<char>, FrameVal)>::empty());
                                    if let Scanned::Done(ps, m) = parse_pairs(
                                        v0.skip(e + 2),
                                        v as nat,
                                    ) {
                                        lemma_fold_insert_is_fold_from(ps);
                                        assert(v0.skip(e + 2).skip(m) =~= v0.skip(e + 2 + m));
                                    }
                                }
                                let mut entries: Vec<(String, RespFrame)> = Vec::new();
                                match decode_pairs(buf, v as u64, &mut entries) {
                                    Ok(_u) => Ok(RespFrame::MapData(entries)),
                                    Err(er) => {
                                        proof {
                                            assert(false);
                                        }
                                        Err(er)
                                    },
                                }
                            } else {
                                bm_advance(buf, e + 2);
                                proof {
                                    lemma_elems_bounds(bm_view(*buf), v as nat);
                                    assert(arr_view(Seq::<RespFrame>::empty())
                                        =~= Seq::<FrameVal>::empty());
                                    if let Scanned::Done(es, m) = parse_elems(
                                        v0.skip(e + 2),
                                        v as nat,
                                    ) {
                                        assert(v0.skip(e + 2).skip(m) =~= v0.skip(e + 2 + m));
                                    }
                                }
                                let mut elems: Vec<RespFrame> = Vec::new();
                                match decode_elems(buf, v as u64, &mut elems) {
                                    Ok(_u) => {
                                        if b == 42 {
                                            Ok(RespFrame::Array(RespArray(elems)))
                                        } else {
                                            Ok(RespFrame::SetData(RespSet(elems)))
                                        }
                                    },
                                    Err(er) => {
                                        proof {
                                            assert(false);
                                        }
                                        Err(er)
                                    },
                                }
                            }
                        },
                        None => {
                            proof {
                                assert(false);
                            }
                            Err(err_frame("aggregate: bad count"))
                        },
                    }
                },
                None => {
                    proof {
                        assert(false);
                    }
                    Err(RespError::NotComplete)
                },
            }
        } else {
            proof {
                assert(false);
            }
            Err(err_type("unknown frame type"))
        }
    }
}

/// Decode exactly `k` frames from the front of `buf`, known to be fully
/// buffered, pushing them onto `out` in order.
fn decode_elems(buf: &mut bytes::BytesMut, k: u64, out: &mut Vec<RespFrame>) -> (r: Result<
    (),
    RespError,
>)
    requires
        parse_elems(bm_view(*old(buf)), k as nat) is Done,
    ensures
        r is Ok,
        arr_view(final(out)@) == arr_view(old(out)@) + parse_elems(
            bm_view(*old(buf)),
            k as nat,
        )->Done_0,
        bm_view(*final(buf)) == bm_view(*old(buf)).skip(
            parse_elems(bm_view(*old(buf)), k as nat)->Done_1,
        ),
    decreases bm_view(*buf).len(), k, 1int,
{
    let ghost u0 = bm_view(*buf);
    if k == 0 {
        proof {
            assert(u0.skip(0) =~= u0);
            assert(arr_view(out@) + Seq::<FrameVal>::empty() =~= arr_view(out@));
        }
        return Ok(());
    }
    proof {
        lemma_elems_step(u0, k as nat);
    }
    let f = match RespFrame::decode(buf) {
        Ok(f) => f,
        Err(e) => {
            proof {
                assert(false);
            }
            return Err(e);
        },
    };
    let ghost fv = frame_view(f);
    out.push(f);
    proof {
        assert(out@.drop_last() =~= old(out)@);
        assert(arr_view(out@) == arr_view(old(out)@).push(fv));
    }
    match decode_elems(buf, k - 1, out) {
        Ok(_u) => {
            proof {
                let n1 = parse_spec(u0)->Done_1;
                lemma_elems_bounds(u0.skip(n1), (k - 1) as nat);
                let rest = parse_elems(u0.skip(n1), (k - 1) as nat);
                assert(arr_view(old(out)@).push(fv) + rest->Done_0 =~= arr_view(old(out)@) + (
                seq![fv] + rest->Done_0));
                assert(u0.skip(n1).skip(rest->Done_1) =~= u0.skip(n1 + rest->Done_1));
            }
            Ok(())
        },
        Err(e) => {
            proof {
                assert(false);
            }
            Err(e)
        },
    }
}

/// Decode exactly `k` key-value pairs from the front of `buf`, known to be
/// fully buffered, folding each into the key-ordered entry vector `out`.
fn decode_pairs(buf: &mut bytes::BytesMut, k: u64, out: &mut Vec<(String, RespFrame)>) -> (r:
    Result<(), RespError>)
    requires
        parse_pairs(bm_view(*old(buf)), k as nat) is Done,
    ensures
        r is Ok,
        entries_view(final(out)@) == fold_from(
            entries_view(old(out)@),
            parse_pairs(bm_view(*old(buf)), k as nat)->Done_0,
        ),
        bm_view(*final(buf)) == bm_view(*old(buf)).skip(
            parse_pairs(bm_view(*old(buf)), k as nat)->Done_1,
        ),
    decreases bm_view(*buf).len(), k, 1int,
{
    let ghost u0 = bm_view(*buf);
    if k == 0 {
        proof {
            assert(u0.skip(0) =~= u0);
        }
        return Ok(());
    }
    proof {
        lemma_pairs_step(u0, k as nat);
    }
    let s = bm_slice(buf);
    let e = match find_crlf_exec(s, 1) {
        Some(e) => e,
        None => {
            proof {
                assert(false);
            }
            return Err(RespError::NotComplete);
        },
    };
    proof {
        lemma_find_crlf_bounds(u0, 1);
    }
    let pay = slice_range(s, 1, e);
    let key = line_string(pay);
    let avail = s.len();
    assert(e + 2 <= avail);
    bm_advance(buf, e + 2);
    let f = match RespFrame::decode(buf) {
        Ok(f) => f,
        Err(er) => {
            proof {
                assert(false);
            }
            return Err(er);
        },
    };
    let ghost kv = (key@, frame_view(f));
    entries_insert(out, key, f);
    proof {
        let n1 = parse_spec(u0.skip(e + 2))->Done_1;
        assert(u0.skip(e + 2).skip(n1) =~= u0.skip(e + 2 + n1));
    }
    match decode_pairs(buf, k - 1, out) {
        Ok(_u) => {
            proof {
                let n1 = parse_spec(u0.skip(e + 2))->Done_1;
                lemma_pairs_bounds(u0.skip(e + 2 + n1), (k - 1) as nat);
                let rest = parse_pairs(u0.skip(e + 2 + n1), (k - 1) as nat);
                let ps = parse_pairs(u0, k as nat)->Done_0;
                assert(ps[0] == kv);
                assert(ps.drop_first() =~= rest->Done_0);
                assert(u0.skip(e + 2 + n1).skip(rest->Done_1) =~= u0.skip(
                    e + 2 + n1 + rest->Done_1,
                ));
            }
            Ok(())
        },
        Err(er) => {
            proof {
                assert(false);
            }
            Err(er)
        },
    }
}

/// Per-kind byte length of the next complete frame: the type-dispatch
/// strategy's own scan, recursing through declared lengths.
#[verifier::loop_isolation(false)]
fn frame_len(s: &[u8]) -> (r: Result<usize, RespError>)
    ensures
        scan_result(parse_spec(s@), r),
        unknown_prefix(s@) ==> (r matches Err(e) && e is InvalidFrameType),
    decreases s@.len(), 0int, 0int,
{
    let n = s.len();
    if n == 0 {
        return Err(RespError::NotComplete);
    }
    let b = s[0];
    if b == 42 || b == 126 || b == 37 {
        let e = match find_crlf_exec(s, 1) {
            Some(e) => e,
            None => {
                return Err(RespError::NotComplete);
            },
        };
        proof {
            lemma_find_crlf_bounds(s@, 1);
        }
        let pay = slice_range(s, 1, e);
        let v = match parse_int_payload(pay) {
            Some(v) => v,
            None => {
                return Err(err_frame("aggregate: bad count"));
            },
        };
        if b == 42 && v == -1 {
            return Ok(e + 2);
        }
        if v < 0 || (b != 42 && v == 0) {
            return Err(err_frame("aggregate count out of range"));
        }
        let rest = tail_from(s, e + 2);
        let m = if b == 37 {
            match pairs_len(rest, v as u64) {
                Ok(m) => m,
                Err(er) => {
                    return Err(er);
                },
            }
        } else {
            match elems_len(rest, v as u64) {
                Ok(m) => m,
                Err(er) => {
                    return Err(er);
                },
            }
        };
        proof {
            if b == 37 {
                lemma_pairs_bounds(rest@, v as nat);
            } else {
                lemma_elems_bounds(rest@, v as nat);
            }
        }
        Ok(e + 2 + m)
    } else if b == 36 {
        let e = match find_crlf_exec(s, 1) {
            Some(e) => e,
            None => {
                return Err(RespError::NotComplete);
            },
        };
        proof {
            lemma_find_crlf_bounds(s@, 1);
        }
        let pay = slice_range(s, 1, e);
        let v = match parse_int_payload(pay) {
            Some(v) => v,
            None => {
                return Err(err_frame("bulk string: bad length"));
            },
        };
        if v == -1 {
            return Ok(e + 2);
        }
        if v < -1 {
            return Err(err_frame("bulk string length must be non-negative"));
        }
        let rem = n - e - 2;
        if (rem as u64) < (v as u64) + 2 {
            return Err(RespError::NotComplete);
        }
        let vu = v as usize;
        if s[e + 2 + vu] == 13 && s[e + 3 + vu] == 10 {
            Ok(e + 4 + vu)
        } else {
            Err(err_frame("bulk string: missing terminator"))
        }
    } else if b == 43 || b == 45 || b == 58 || b == 44 {
        let e = match find_crlf_exec(s, 1) {
            Some(e) => e,
            None => {
                return Err(RespError::NotComplete);
            },
        };
        proof {
            lemma_find_crlf_bounds(s@, 1);
        }
        if b == 58 {
            let pay = slice_range(s, 1, e);
            if parse_int_payload(pay).is_none() {
                return Err(err_frame("integer: bad numeric payload"));
            }
        }
        if b == 44 {
            let pay = slice_range(s, 1, e);
            if !is_double_exec(pay) {
                return Err(err_frame("double: bad floating-point literal"));
            }
        }
        Ok(e + 2)
    } else if b == 95 {
        if n >= 2 && s[1] != 13 {
            Err(err_frame("null: missing terminator"))
        } else if n >= 3 && s[2] != 10 {
            Err(err_frame("null: missing terminator"))
        } else if n < 3 {
            Err(RespError::NotComplete)
        } else {
            Ok(3)
        }
    } else if b == 35 {
        if n < 2 {
            Err(RespError::NotComplete)
        } else if s[1] != 116 && s[1] != 102 {
            Err(err_frame("boolean must be #t or #f"))
        } else if n >= 3 && s[2] != 13 {
            Err(err_frame("boolean: missing terminator"))
        } else if n >= 4 && s[3] != 10 {
            Err(err_frame("boolean: missing terminator"))
        } else if n < 4 {
            Err(RespError::NotComplete)
        } else {
            Ok(4)
        }
    } else {
        Err(err_type("unknown frame type"))
    }
}

/// Total byte length of `k` complete frames at the front of `s`.
#[verifier::loop_isolation(false)]
fn elems_len(s: &[u8], k: u64) -> (r: Result<usize, RespError>)
    ensures
        scan_result(parse_elems(s@, k as nat), r),
    decreases s@.len(), k, 1int,
{
    if k == 0 {
        return Ok(0);
    }
    let n1 = match frame_len(s) {
        Ok(x) => x,
        Err(e) => {
            return Err(e);
        },
    };
    proof {
        lemma_parse_bounds(s@);
    }
    let rest = tail_from(s, n1);
    let m = match elems_len(rest, k - 1) {
        Ok(x) => x,
        Err(e) => {
            return Err(e);
        },
    };
    proof {
        lemma_elems_bounds(rest@, (k - 1) as nat);
    }
    let total = s.len();
    assert(n1 + m <= total);
    Ok(n1 + m)
}

/// Total byte length of `k` complete key-value pairs at the front of `s`.
#[verifier::loop_isolation(false)]
fn pairs_len(s: &[u8], k: u64) -> (r: Result<usize, RespError>)
    ensures
        scan_result(parse_pairs(s@, k as nat), r),
    decreases s@.len(), k, 1int,
{
    if k == 0 {
        return Ok(0);
    }
    let n = s.len();
    if n == 0 {
        return Err(RespError::NotComplete);
    }
    if s[0] != 43 {
        return Err(err_frame("map key must be a simple string"));
    }
    let e = match find_crlf_exec(s, 1) {
        Some(e) => e,
        None => {
            return Err(RespError::NotComplete);
        },
    };
    proof {
        lemma_find_crlf_bounds(s@, 1);
    }
    let rest = tail_from(s, e + 2);
    let n1 = match frame_len(rest) {
        Ok(x) => x,
        Err(er) => {
            return Err(er);
        },
    };
    proof {
        lemma_parse_bounds(rest@);
    }
    let rest2 = tail_from(rest, n1);
    proof {
        assert(s@.skip(e + 2).skip(n1 as int) =~= s@.skip(e + 2 + n1));
    }
    let m = match pairs_len(rest2, k - 1) {
        Ok(x) => x,
        Err(er) => {
            return Err(er);
        },
    };
    proof {
        lemma_pairs_bounds(rest2@, (k - 1) as nat);
    }
    Ok(e + 2 + n1 + m)
}

impl RespArray {
    /// Byte length of the next complete frame, which must be an aggregate
    /// array frame.
    pub fn expect_length(buf: &[u8]) -> (r: Result<usize, RespError>)
        ensures
            scan_result(parse_spec(buf@), r),
    {
        RespFrame::expect_length(buf)
    }

    /// Decode one array frame from the front of `buf`. A buffer whose next
    /// frame is of another kind is rejected: a null array is consumed and
    /// then rejected, any other kind is rejected with the buffer untouched.
    pub fn decode(buf: &mut bytes::BytesMut) -> (r: Result<RespArray, RespError>)
        ensures
            match parse_spec(bm_view(*old(buf))) {
                Scanned::Done(fv, n) => if fv is Array {
                    r matches Ok(a) && fv == FrameVal::Array(a@) && bm_view(*final(buf))
                        == bm_view(*old(buf)).skip(n)
                } else if fv is NullArray {
                    r matches Err(e) && !(e is NotComplete) && bm_view(*final(buf)) == bm_view(
                        *old(buf),
                    ).skip(n)
                } else {
                    r matches Err(e) && !(e is NotComplete) && bm_view(*final(buf)) == bm_view(
                        *old(buf),
                    )
                },
                Scanned::Incomplete => if bm_view(*old(buf)).len() > 0 && bm_view(*old(buf))[0]
                    != 42 {
                    r matches Err(e) && !(e is NotComplete) && bm_view(*final(buf)) == bm_view(
                        *old(buf),
                    )
                } else {
                    r matches Err(e) && e is NotComplete && bm_view(*final(buf)) == bm_view(
                        *old(buf),
                    )
                },
                Scanned::Malformed => r matches Err(e) && !(e is NotComplete) && bm_view(
                    *final(buf),
                ) == bm_view(*old(buf)),
            },
    {
        proof {
            crate::model::lemma_parse_kind(bm_view(*buf));
        }
        {
            let s = bm_slice(buf);
            if s.len() > 0 && s[0] != 42 {
                return Err(err_type("expected an array frame"));
            }
        }
        match RespFrame::decode(buf) {
            Ok(f) => match f {
                RespFrame::Array(a) => Ok(a),
                _ => Err(err_type("expected an array frame")),
            },
            Err(e) => Err(e),
        }
    }
}

impl RespSet {
    /// Byte length of the next complete frame, which must be a set frame.
    pub fn expect_length(buf: &[u8]) -> (r: Result<usize, RespError>)
        ensures
            scan_result(parse_spec(buf@), r),
    {
        RespFrame::expect_length(buf)
    }

    /// Decode one set frame from the front of `buf`. A buffer whose next
    /// frame is of another kind is rejected with the buffer untouched.
    pub fn decode(buf: &mut bytes::BytesMut) -> (r: Result<RespSet, RespError>)
        ensures
            match parse_spec(bm_view(*old(buf))) {
                Scanned::Done(fv, n) => if fv is SetData {
                    r matches Ok(st) && fv == FrameVal::SetData(st@) && bm_view(*final(buf))
                        == bm_view(*old(buf)).skip(n)
                } else {
                    r matches Err(e) && !(e is NotComplete) && bm_view(*final(buf)) == bm_view(
                        *old(buf),
                    )
                },
                Scanned::Incomplete => if bm_view(*old(buf)).len() > 0 && bm_view(*old(buf))[0]
                    != 126 {
                    r matches Err(e) && !(e is NotComplete) && bm_view(*final(buf)) == bm_view(
                        *old(buf),
                    )
                } else {
                    r matches Err(e) && e is NotComplete && bm_view(*final(buf)) == bm_view(
                        *old(buf),
                    )
                },
                Scanned::Malformed => r matches Err(e) && !(e is NotComplete) && bm_view(
                    *final(buf),
                ) == bm_view(*old(buf)),
            },
    {
        proof {
            crate::model::lemma_parse_kind(bm_view(*buf));
        }
        {
            let s = bm_slice(buf);
            if s.len() > 0 && s[0] != 126 {
                return Err(err_type("expected a set frame"));
            }
        }
        match RespFrame::decode(buf) {
            Ok(f) => match f {
                RespFrame::SetData(st) => Ok(st),
                _ => Err(err_type("expected a set frame")),
            },
            Err(e) => Err(e),
        }
    }
}

} // verus!
