//! Single-pass decoding: a length-only scanner that walks the buffer
//! without building values, and a cursor-style parser that builds a frame
//! in one forward pass. Both are specified against the reference parser in
//! `model`.
use vstd::prelude::*;

verus! {

use crate::frame::arr_view;
use crate::frame::entries_insert;
use crate::frame::entries_view;
use crate::frame::err_frame;
use crate::frame::frame_view;
use crate::frame::parse_result;
use crate::frame::RespArray;
use crate::frame::RespFrame;
use crate::frame::RespSet;
use crate::frame::err_type;
use crate::frame::scan_result;
use crate::frame::RespError;
use crate::model::fits_i64;
use crate::model::fold_from;
use crate::model::lemma_fold_insert_is_fold_from;
use crate::model::FrameVal;
use crate::model::lemma_elems_bounds;
use crate::model::lemma_find_crlf_bounds;
use crate::model::lemma_pairs_bounds;
use crate::model::lemma_parse_bounds;
use crate::model::parse_elems;
use crate::model::parse_pairs;
use crate::model::parse_spec;
use crate::model::unknown_prefix;
use crate::model::Scanned;
use crate::bytebuf::bm_advance;
use crate::bytebuf::bm_slice;
use crate::bytebuf::bm_view;
use crate::decode::decode_result;
use crate::laws::lemma_exact_slice;
use crate::scan::find_crlf_exec;
use crate::scan::head_to;
use crate::scan::line_string;
use crate::scan::is_double_exec;
use crate::scan::parse_int_payload;
use crate::scan::slice_range;
use crate::scan::tail_from;

/// Byte length of the next complete frame at the head of `buf`, walking
/// nested structure without building any values. Returns `NotComplete`
/// exactly when `buf` is a proper prefix of some longer well-formed frame
/// region, and a terminal error exactly when the bytes already violate the
/// grammar.
pub fn parse_frame_length(buf: &[u8]) -> (r: Result<usize, RespError>)
    ensures
        scan_result(parse_spec(buf@), r),
        unknown_prefix(buf@) ==> (r matches Err(e) && e is InvalidFrameType),
{
    scan_frame(buf)
}

#[verifier::loop_isolation(false)]
pub(crate) fn scan_frame(s: &[u8]) -> (r: Result<usize, RespError>)
    ensures
        scan_result(parse_spec(s@), r),
        unknown_prefix(s@) ==> (r matches Err(e) && e is InvalidFrameType),
    decreases s@.len(), 0int, 0int,
{
    let n = s.len();
    if n == 0 {
        return Err(RespError::NotComplete);
    }
    let b = s[0];
    if b == 43 || b == 45 {
        match find_crlf_exec(s, 1) {
            None => Err(RespError::NotComplete),
            Some(e) => {
                proof {
                    lemma_find_crlf_bounds(s@, 1);
                }
                Ok(e + 2)
            },
        }
    } else if b == 58 {
        match find_crlf_exec(s, 1) {
            None => Err(RespError::NotComplete),
            Some(e) => {
                proof {
                    lemma_find_crlf_bounds(s@, 1);
                }
                let pay = slice_range(s, 1, e);
                match parse_int_payload(pay) {
                    None => Err(err_frame("integer: bad numeric payload")),
                    Some(_) => Ok(e + 2),
                }
            },
        }
    } else if b == 36 {
        match find_crlf_exec(s, 1) {
            None => Err(RespError::NotComplete),
            Some(e) => {
                proof {
                    lemma_find_crlf_bounds(s@, 1);
                }
                let pay = slice_range(s, 1, e);
                match parse_int_payload(pay) {
                    None => Err(err_frame("bulk string: bad length")),
                    Some(v) => {
                        if v == -1 {
                            Ok(e + 2)
                        } else if v < -1 {
                            Err(err_frame("bulk string length must be non-negative"))
                        } else {
                            let rem = n - e - 2;
                            if (rem as u64) < (v as u64) + 2 {
                                Err(RespError::NotComplete)
                            } else {
                                let vu = v as usize;
                                if s[e + 2 + vu] == 13 && s[e + 3 + vu] == 10 {
                                    Ok(e + 4 + vu)
                                } else {
                                    Err(err_frame("bulk string: missing terminator"))
                                }
                            }
                        }
                    },
                }
            },
        }
    } else if b == 42 {
        match find_crlf_exec(s, 1) {
            None => Err(RespError::NotComplete),
            Some(e) => {
                proof {
                    lemma_find_crlf_bounds(s@, 1);
                }
                let pay = slice_range(s, 1, e);
                match parse_int_payload(pay) {
                    None => Err(err_frame("array: bad length")),
                    Some(v) => {
                        if v == -1 {
                            Ok(e + 2)
                        } else if v < -1 {
                            Err(err_frame("array length must be non-negative"))
                        } else {
                            let rest = tail_from(s, e + 2);
                            match scan_elems(rest, v as u64) {
                                Ok(m) => {
                                    proof {
                                        lemma_elems_bounds(rest@, v as nat);
                                    }
                                    Ok(e + 2 + m)
                                },
                                Err(er) => Err(er),
                            }
                        }
                    },
                }
            },
        }
    } else if b == 95 {
        if n >= 2 && s[1] != 13 {
            Err(err_frame("null: missing terminator"))
        } else if n >= 3 && s[2] != 10 {
            Err(err_frame("null: missing terminator"))
        } else if n < 3 {
            Err(RespError::NotComplete)
        } else {
            Ok(3)
        }
    } else if b == 35 {
        if n < 2 {
            Err(RespError::NotComplete)
        } else if s[1] != 116 && s[1] != 102 {
            Err(err_frame("boolean must be #t or #f"))
        } else if n >= 3 && s[2] != 13 {
            Err(err_frame("boolean: missing terminator"))
        } else if n >= 4 && s[3] != 10 {
            Err(err_frame("boolean: missing terminator"))
        } else if n < 4 {
            Err(RespError::NotComplete)
        } else {
            Ok(4)
        }
    } else if b == 44 {
        match find_crlf_exec(s, 1) {
            None => Err(RespError::NotComplete),
            Some(e) => {
                proof {
                    lemma_find_crlf_bounds(s@, 1);
                }
                let pay = slice_range(s, 1, e);
                if is_double_exec(pay) {
                    Ok(e + 2)
                } else {
                    Err(err_frame("double: bad floating-point literal"))
                }
            },
        }
    } else if b == 37 {
        match find_crlf_exec(s, 1) {
            None => Err(RespError::NotComplete),
            Some(e) => {
                proof {
                    lemma_find_crlf_bounds(s@, 1);
                }
                let pay = slice_range(s, 1, e);
                match parse_int_payload(pay) {
                    None => Err(err_frame("map: bad count")),
                    Some(v) => {
                        if v <= 0 {
                            Err(err_frame("map count must be positive"))
                        } else {
                            let rest = tail_from(s, e + 2);
                            match scan_pairs(rest, v as u64) {
                                Ok(m) => {
                                    proof {
                                        lemma_pairs_bounds(rest@, v as nat);
                                    }
                                    Ok(e + 2 + m)
                                },
                                Err(er) => Err(er),
                            }
                        }
                    },
                }
            },
        }
    } else if b == 126 {
        match find_crlf_exec(s, 1) {
            None => Err(RespError::NotComplete),
            Some(e) => {
                proof {
                    lemma_find_crlf_bounds(s@, 1);
                }
                let pay = slice_range(s, 1, e);
                match parse_int_payload(pay) {
                    None => Err(err_frame("set: bad count")),
                    Some(v) => {
                        if v <= 0 {
                            Err(err_frame("set count must be positive"))
                        } else {
                            let rest = tail_from(s, e + 2);
                            match scan_elems(rest, v as u64) {
                                Ok(m) => {
                                    proof {
                                        lemma_elems_bounds(rest@, v as nat);
                                    }
                                    Ok(e + 2 + m)
                                },
                                Err(er) => Err(er),
                            }
                        }
                    },
                }
            },
        }
    } else {
        Err(err_type("unknown frame type"))
    }
}

#[verifier::loop_isolation(false)]
pub(crate) fn scan_elems(s: &[u8], k: u64) -> (r: Result<usize, RespError>)
    ensures
        scan_result(parse_elems(s@, k as nat), r),
    decreases s@.len(), k, 1int,
{
    if k == 0 {
        return Ok(0);
    }
    let n1 = match scan_frame(s) {
        Ok(x) => x,
        Err(e) => {
            return Err(e);
        },
    };
    proof {
        lemma_parse_bounds(s@);
    }
    let rest = tail_from(s, n1);
    let m = match scan_elems(rest, k - 1) {
        Ok(x) => x,
        Err(e) => {
            return Err(e);
        },
    };
    proof {
        lemma_elems_bounds(rest@, (k - 1) as nat);
    }
    let total = s.len();
    assert(n1 + m <= total);
    Ok(n1 + m)
}

#[verifier::loop_isolation(false)]
pub(crate) fn scan_pairs(s: &[u8], k: u64) -> (r: Result<usize, RespError>)
    ensures
        scan_result(parse_pairs(s@, k as nat), r),
    decreases s@.len(), k, 1int,
{
    if k == 0 {
        return Ok(0);
    }
    let n = s.len();
    if n == 0 {
        return Err(RespError::NotComplete);
    }
    if s[0] != 43 {
        return Err(err_frame("map key must be a simple string"));
    }
    match find_crlf_exec(s, 1) {
        None => Err(RespError::NotComplete),
        Some(e) => {
            proof {
                lemma_find_crlf_bounds(s@, 1);
            }
            let rest = tail_from(s, e + 2);
            let n1 = match scan_frame(rest) {
                Ok(x) => x,
                Err(er) => {
                    return Err(er);
                },
            };
            proof {
                lemma_parse_bounds(rest@);
            }
            let rest2 = tail_from(rest, n1);
            proof {
                assert(s@.skip(e + 2).skip(n1 as int) =~= s@.skip(e + 2 + n1));
            }
            let m = match scan_pairs(rest2, k - 1) {
                Ok(x) => x,
                Err(er) => {
                    return Err(er);
                },
            };
            proof {
                lemma_pairs_bounds(rest2@, (k - 1) as nat);
            }
            Ok(e + 2 + n1 + m)
        },
    }
}

/// Parse one frame from the front of `input` in a single forward pass,
/// returning the frame and the exact number of bytes it occupies.
pub fn parse_frame(input: &[u8]) -> (r: Result<(RespFrame, usize), RespError>)
    ensures
        parse_result(parse_spec(input@), r),
        unknown_prefix(input@) ==> (r matches Err(e) && e is InvalidFrameType),
{
    parse_at(input)
}

#[verifier::loop_isolation(false)]
pub(crate) fn parse_at(s: &[u8]) -> (r: Result<(RespFrame, usize), RespError>)
    ensures
        parse_result(parse_spec(s@), r),
        unknown_prefix(s@) ==> (r matches Err(e) && e is InvalidFrameType),
    decreases s@.len(), 0int, 0int,
{
    let n = s.len();
    if n == 0 {
        return Err(RespError::NotComplete);
    }
    let b = s[0];
    if b == 43 || b == 45 {
        match find_crlf_exec(s, 1) {
            None => Err(RespError::NotComplete),
            Some(e) => {
                proof {
                    lemma_find_crlf_bounds(s@, 1);
                }
                let pay = slice_range(s, 1, e);
                let text = line_string(pay);
                if b == 43 {
                    Ok((RespFrame::SimpleString(text), e + 2))
                } else {
                    Ok((RespFrame::Error(text), e + 2))
                }
            },
        }
    } else if b == 58 {
        match find_crlf_exec(s, 1) {
            None => Err(RespError::NotComplete),
            Some(e) => {
                proof {
                    lemma_find_crlf_bounds(s@, 1);
                }
                let pay = slice_range(s, 1, e);
                match parse_int_payload(pay) {
                    None => Err(err_frame("integer: bad numeric payload")),
                    Some(v) => Ok((RespFrame::Integer(v), e + 2)),
                }
            },
        }
    } else if b == 36 {
        match find_crlf_exec(s, 1) {
            None => Err(RespError::NotComplete),
            Some(e) => {
                proof {
                    lemma_find_crlf_bounds(s@, 1);
                }
                let pay = slice_range(s, 1, e);
                match parse_int_payload(pay) {
                    None => Err(err_frame("bulk string: bad length")),
                    Some(v) => {
                        if v == -1 {
                            Ok((RespFrame::NullBulkString, e + 2))
                        } else if v < -1 {
                            Err(err_frame("bulk string length must be non-negative"))
                        } else {
                            let rem = n - e - 2;
                            if (rem as u64) < (v as u64) + 2 {
                                Err(RespError::NotComplete)
                            } else {
                                let vu = v as usize;
                                if s[e + 2 + vu] == 13 && s[e + 3 + vu] == 10 {
                                    let data = slice_range(s, e + 2, e + 2 + vu);
                                    let body = vstd::slice::slice_to_vec(data);
                                    Ok((RespFrame::BulkString(body), e + 4 + vu))
                                } else {
                                    Err(err_frame("bulk string: missing terminator"))
                                }
                            }
                        }
                    },
                }
            },
        }
    } else if b == 42 {
        match find_crlf_exec(s, 1) {
            None => Err(RespError::NotComplete),
            Some(e) => {
                proof {
                    lemma_find_crlf_bounds(s@, 1);
                }
                let pay = slice_range(s, 1, e);
                match parse_int_payload(pay) {
                    None => Err(err_frame("array: bad length")),
                    Some(v) => {
                        if v == -1 {
                            Ok((RespFrame::NullArray, e + 2))
                        } else if v < -1 {
                            Err(err_frame("array length must be non-negative"))
                        } else {
                            let rest = tail_from(s, e + 2);
                            let mut elems: Vec<RespFrame> = Vec::new();
                            match parse_elems_exec(rest, v as u64, &mut elems) {
                                Ok(m) => {
                                    proof {
                                        lemma_elems_bounds(rest@, v as nat);
                                        assert(arr_view(Seq::<RespFrame>::empty())
                                            =~= Seq::<FrameVal>::empty());
                                    }
                                    let total = s.len();
                                    assert(e + 2 + m <= total);
                                    proof {
                                        if let Scanned::Done(es, mm) = parse_elems(
                                            rest@,
                                            v as nat,
                                        ) {
                                            assert(arr_view(elems@) =~= es);
                                        }
                                    }
                                    Ok((RespFrame::Array(RespArray(elems)), e + 2 + m))
                                },
                                Err(er) => Err(er),
                            }
                        }
                    },
                }
            },
        }
    } else if b == 95 {
        if n >= 2 && s[1] != 13 {
            Err(err_frame("null: missing terminator"))
        } else if n >= 3 && s[2] != 10 {
            Err(err_frame("null: missing terminator"))
        } else if n < 3 {
            Err(RespError::NotComplete)
        } else {
            Ok((RespFrame::Null, 3))
        }
    } else if b == 35 {
        if n < 2 {
            Err(RespError::NotComplete)
        } else if s[1] != 116 && s[1] != 102 {
            Err(err_frame("boolean must be #t or #f"))
        } else if n >= 3 && s[2] != 13 {
            Err(err_frame("boolean: missing terminator"))
        } else if n >= 4 && s[3] != 10 {
            Err(err_frame("boolean: missing terminator"))
        } else if n < 4 {
            Err(RespError::NotComplete)
        } else {
            Ok((RespFrame::Boolean(s[1] == 116), 4))
        }
    } else if b == 44 {
        match find_crlf_exec(s, 1) {
            None => Err(RespError::NotComplete),
            Some(e) => {
                proof {
                    lemma_find_crlf_bounds(s@, 1);
                }
                let pay = slice_range(s, 1, e);
                if is_double_exec(pay) {
                    let text = line_string(pay);
                    Ok((RespFrame::Double(text), e + 2))
                } else {
                    Err(err_frame("double: bad floating-point literal"))
                }
            },
        }
    } else if b == 37 {
        match find_crlf_exec(s, 1) {
            None => Err(RespError::NotComplete),
            Some(e) => {
                proof {
                    lemma_find_crlf_bounds(s@, 1);
                }
                let pay = slice_range(s, 1, e);
                match parse_int_payload(pay) {
                    None => Err(err_frame("map: bad count")),
                    Some(v) => {
                        if v <= 0 {
                            Err(err_frame("map count must be positive"))
                        } else {
                            let rest = tail_from(s, e + 2);
                            let mut entries: Vec<(String, RespFrame)> = Vec::new();
                            match parse_pairs_exec(rest, v as u64, &mut entries) {
                                Ok(m) => {
                                    proof {
                                        lemma_pairs_bounds(rest@, v as nat);
                                        assert(entries_view(Seq::<(String, RespFrame)>::empty())
                                            =~= Seq::<(Seq<char>, FrameVal)>::empty());
                                        if let Scanned::Done(ps, mm) = parse_pairs(
                                            rest@,
                                            v as nat,
                                        ) {
                                            lemma_fold_insert_is_fold_from(ps);
                                        }
                                    }
                                    let total = s.len();
                                    assert(e + 2 + m <= total);
                                    Ok((RespFrame::MapData(entries), e + 2 + m))
                                },
                                Err(er) => Err(er),
                            }
                        }
                    },
                }
            },
        }
    } else if b == 126 {
        match find_crlf_exec(s, 1) {
            None => Err(RespError::NotComplete),
            Some(e) => {
                proof {
                    lemma_find_crlf_bounds(s@, 1);
                }
                let pay = slice_range(s, 1, e);
                match parse_int_payload(pay) {
                    None => Err(err_frame("set: bad count")),
                    Some(v) => {
                        if v <= 0 {
                            Err(err_frame("set count must be positive"))
                        } else {
                            let rest = tail_from(s, e + 2);
                            let mut elems: Vec<RespFrame> = Vec::new();
                            match parse_elems_exec(rest, v as u64, &mut elems) {
                                Ok(m) => {
                                    proof {
                                        lemma_elems_bounds(rest@, v as nat);
                                        assert(arr_view(Seq::<RespFrame>::empty())
                                            =~= Seq::<FrameVal>::empty());
                                        if let Scanned::Done(es, mm) = parse_elems(
                                            rest@,
                                            v as nat,
                                        ) {
                                            assert(arr_view(elems@) =~= es);
                                        }
                                    }
                                    let total = s.len();
                                    assert(e + 2 + m <= total);
                                    Ok((RespFrame::SetData(RespSet(elems)), e + 2 + m))
                                },
                                Err(er) => Err(er),
                            }
                        }
                    },
                }
            },
        }
    } else {
        Err(err_type("unknown frame type"))
    }
}

/// Parse exactly `k` frames from the front of `s`, pushing them onto `out`
/// in order.
#[verifier::loop_isolation(false)]
pub(crate) fn parse_elems_exec(s: &[u8], k: u64, out: &mut Vec<RespFrame>) -> (r: Result<
    usize,
    RespError,
>)
    ensures
        match parse_elems(s@, k as nat) {
            Scanned::Done(es, m) => r matches Ok(x) && x == m && arr_view(final(out)@)
                == arr_view(old(out)@) + es,
            Scanned::Incomplete => r matches Err(e) && e is NotComplete,
            Scanned::Malformed => r matches Err(e) && !(e is NotComplete),
        },
    decreases s@.len(), k, 1int,
{
    if k == 0 {
        assert(arr_view(out@) + Seq::<FrameVal>::empty() =~= arr_view(out@));
        return Ok(0);
    }
    let (f, n1) = match parse_at(s) {
        Ok(p) => p,
        Err(e) => {
            return Err(e);
        },
    };
    proof {
        lemma_parse_bounds(s@);
    }
    let ghost fv = frame_view(f);
    out.push(f);
    proof {
        assert(out@.drop_last() =~= old(out)@);
        assert(arr_view(out@) == arr_view(old(out)@).push(fv));
    }
    let rest = tail_from(s, n1);
    let m = match parse_elems_exec(rest, k - 1, out) {
        Ok(x) => x,
        Err(e) => {
            return Err(e);
        },
    };
    proof {
        lemma_elems_bounds(rest@, (k - 1) as nat);
        if let Scanned::Done(es2, m2) = parse_elems(rest@, (k - 1) as nat) {
            assert(arr_view(old(out)@).push(fv) + es2 =~= arr_view(old(out)@) + (seq![fv]
                + es2));
        }
    }
    let total = s.len();
    assert(n1 + m <= total);
    Ok(n1 + m)
}

/// Parse exactly `k` key-value pairs from the front of `s`, folding each
/// into the key-ordered entry vector `out` in wire order.
#[verifier::loop_isolation(false)]
pub(crate) fn parse_pairs_exec(s: &[u8], k: u64, out: &mut Vec<(String, RespFrame)>) -> (r: Result<
    usize,
    RespError,
>)
    ensures
        match parse_pairs(s@, k as nat) {
            Scanned::Done(ps, m) => r matches Ok(x) && x == m && entries_view(final(out)@)
                == fold_from(entries_view(old(out)@), ps),
            Scanned::Incomplete => r matches Err(e) && e is NotComplete,
            Scanned::Malformed => r matches Err(e) && !(e is NotComplete),
        },
    decreases s@.len(), k, 1int,
{
    if k == 0 {
        return Ok(0);
    }
    let n = s.len();
    if n == 0 {
        return Err(RespError::NotComplete);
    }
    if s[0] != 43 {
        return Err(err_frame("map key must be a simple string"));
    }
    match find_crlf_exec(s, 1) {
        None => Err(RespError::NotComplete),
        Some(e) => {
            proof {
                lemma_find_crlf_bounds(s@, 1);
            }
            let pay = slice_range(s, 1, e);
            let key = line_string(pay);
            let rest = tail_from(s, e + 2);
            let (f, n1) = match parse_at(rest) {
                Ok(p) => p,
                Err(er) => {
                    return Err(er);
                },
            };
            proof {
                lemma_parse_bounds(rest@);
            }
            let ghost kv = (key@, frame_view(f));
            entries_insert(out, key, f);
            let rest2 = tail_from(rest, n1);
            proof {
                assert(s@.skip(e + 2).skip(n1 as int) =~= s@.skip(e + 2 + n1));
            }
            let m = match parse_pairs_exec(rest2, k - 1, out) {
                Ok(x) => x,
                Err(er) => {
                    return Err(er);
                },
            };
            proof {
                lemma_pairs_bounds(rest2@, (k - 1) as nat);
                if let Scanned::Done(ps2, m2) = parse_pairs(rest2@, (k - 1) as nat) {
                    let ps = seq![kv] + ps2;
                    assert(ps[0] == kv);
                    assert(ps.drop_first() =~= ps2);
                }
            }
            let total = s.len();
            assert(e + 2 + n1 + m <= total);
            Ok(e + 2 + n1 + m)
        },
    }
}

/// Single-pass decoding from a growable receive buffer: first a length
/// scan to learn whether one whole frame is buffered, then one forward
/// parse over exactly that many bytes.
pub trait RespDecodeV2: Sized {
    /// What one decode call guarantees, relating the buffer before and
    /// after the call to the result.
    spec fn decode_ok(before: Seq<u8>, after: Seq<u8>, r: Result<Self, RespError>) -> bool;

    /// What one length scan guarantees for the scanned bytes.
    spec fn length_ok(buf: Seq<u8>, r: Result<usize, RespError>) -> bool;

    fn decode(buf: &mut bytes::BytesMut) -> (r: Result<Self, RespError>)
        ensures
            Self::decode_ok(bm_view(*old(buf)), bm_view(*final(buf)), r),
    ;

    fn expect_length(buf: &[u8]) -> (r: Result<usize, RespError>)
        ensures
            Self::length_ok(buf@, r),
    ;
}

impl RespDecodeV2 for RespFrame {
    open spec fn decode_ok(
        before: Seq<u8>,
        after: Seq<u8>,
        r: Result<RespFrame, RespError>,
    ) -> bool {
        decode_result(before, after, r)
    }

    open spec fn length_ok(buf: Seq<u8>, r: Result<usize, RespError>) -> bool {
        scan_result(parse_spec(buf), r)
    }

    fn decode(buf: &mut bytes::BytesMut) -> (r: Result<RespFrame, RespError>) {
        let n = {
            let s = bm_slice(buf);
            match parse_frame_length(s) {
                Ok(n) => n,
                Err(e) => {
                    return Err(e);
                },
            }
        };
        proof {
            lemma_parse_bounds(bm_view(*buf));
            lemma_exact_slice(bm_view(*buf));
        }
        let f = {
            let s = bm_slice(buf);
            let head = head_to(s, n);
            match parse_frame(head) {
                Ok(p) => p.0,
                Err(e) => {
                    proof {
                        assert(false);
                    }
                    return Err(e);
                },
            }
        };
        bm_advance(buf, n);
        Ok(f)
    }

    fn expect_length(buf: &[u8]) -> (r: Result<usize, RespError>) {
        parse_frame_length(buf)
    }
}

} // verus!
