//! Shared low-level scanning primitives: slicing helpers, terminator
//! search, integer and floating-point literal recognition, and the one
//! byte-to-text conversion the decoders use.
use vstd::prelude::*;

verus! {

use crate::model::all_digits;
use crate::model::bytes_lt;
use crate::model::digits_val;
use crate::model::exp_digits_ok;
use crate::model::find_byte;
use crate::model::find_crlf;
use crate::model::fits_i64;
use crate::model::int_of_line;
use crate::model::is_digit;
use crate::model::is_double_payload;
use crate::model::is_mantissa;
use crate::model::is_special_float;
use crate::model::lossy_utf8;
use crate::model::lower;
use crate::model::str_of;
use crate::model::strip_sign;
use vstd::utf8::decode_utf8;
use vstd::utf8::valid_utf8;

/// Relies on `String::from_utf8_lossy` (with `into_owned`): the result is a
/// function of the bytes alone, and on valid UTF-8 it is exactly those
/// bytes' characters, borrowed unchanged.
#[verifier::external_body]
pub(crate) fn utf8_lossy(b: &[u8]) -> (r: String)
    ensures
        r@ == lossy_utf8(b@),
        valid_utf8(b@) ==> r@ == decode_utf8(b@),
{
    String::from_utf8_lossy(b).into_owned()
}

/// The view of every decoded line payload is `str_of` of its bytes.
pub(crate) fn line_string(b: &[u8]) -> (r: String)
    ensures
        r@ == str_of(b@),
{
    utf8_lossy(b)
}

/// The suffix of `s` starting at `n`.
pub(crate) fn tail_from(s: &[u8], n: usize) -> (r: &[u8])
    requires
        n <= s@.len(),
    ensures
        r@ == s@.skip(n as int),
{
    let pieces = s.split_at(n);
    proof {
        assert(s@.subrange(n as int, s@.len() as int) =~= s@.skip(n as int));
    }
    pieces.1
}

/// The prefix of `s` ending at `n`.
pub(crate) fn head_to(s: &[u8], n: usize) -> (r: &[u8])
    requires
        n <= s@.len(),
    ensures
        r@ == s@.take(n as int),
{
    let pieces = s.split_at(n);
    proof {
        assert(s@.subrange(0, n as int) =~= s@.take(n as int));
    }
    pieces.0
}

/// The bytes of `s` between `lo` and `hi`.
pub(crate) fn slice_range(s: &[u8], lo: usize, hi: usize) -> (r: &[u8])
    requires
        lo <= hi <= s@.len(),
    ensures
        r@ == s@.subrange(lo as int, hi as int),
{
    let head = head_to(s, hi);
    let r = tail_from(head, lo);
    proof {
        assert(s@.take(hi as int).skip(lo as int) =~= s@.subrange(lo as int, hi as int));
    }
    r
}

/// Find the first CRLF pair at or after `from`.
#[verifier::loop_isolation(false)]
pub(crate) fn find_crlf_exec(s: &[u8], from: usize) -> (r: Option<usize>)
    ensures
        match r {
            Some(i) => find_crlf(s@, from as int) == Some(i as int),
            None => find_crlf(s@, from as int) is None,
        },
{
    let mut i: usize = from;
    while i < s.len() && i + 1 < s.len()
        invariant
            from <= i,
            find_crlf(s@, from as int) == find_crlf(s@, i as int),
        decreases s@.len() - i,
    {
        if s[i] == 13 && s[i + 1] == 10 {
            return Some(i);
        }
        proof {
            assert(find_crlf(s@, i as int) == find_crlf(s@, i + 1));
        }
        i = i + 1;
    }
    None
}

/// Find the first occurrence of `b` in `s` at or after `from`.
#[verifier::loop_isolation(false)]
pub(crate) fn find_byte_exec(s: &[u8], b: u8, from: usize) -> (r: Option<usize>)
    ensures
        match r {
            Some(i) => find_byte(s@, b, from as int) == Some(i as int),
            None => find_byte(s@, b, from as int) is None,
        },
{
    let mut i: usize = from;
    while i < s.len()
        invariant
            from <= i,
            find_byte(s@, b, from as int) == find_byte(s@, b, i as int),
        decreases s@.len() - i,
    {
        if s[i] == b {
            return Some(i);
        }
        proof {
            assert(find_byte(s@, b, i as int) == find_byte(s@, b, i + 1));
        }
        i = i + 1;
    }
    None
}

#[verifier::loop_isolation(false)]
pub(crate) fn all_digits_exec(p: &[u8]) -> (r: bool)
    ensures
        r == all_digits(p@),
{
    let mut i: usize = 0;
    while i < p.len()
        invariant
            i <= p@.len(),
            forall|j: int| 0 <= j < i ==> is_digit(#[trigger] p@[j]),
        decreases p@.len() - i,
    {
        if p[i] < 48 || p[i] > 57 {
            return false;
        }
        i = i + 1;
    }
    true
}

/// The numeric value of a `[+|-]digits` payload, when it has that shape and
/// fits a signed 64-bit integer; `None` exactly when the shape is wrong or
/// the value is out of range.
#[verifier::loop_isolation(false)]
pub(crate) fn parse_int_payload(p: &[u8]) -> (r: Option<i64>)
    ensures
        match int_of_line(p@) {
            Some(v) => if fits_i64(v) {
                r matches Some(x) && x as int == v
            } else {
                r is None
            },
            None => r is None,
        },
{
    if p.len() == 0 {
        return None;
    }
    let neg: bool = p[0] == 45;
    let signed: bool = p[0] == 43 || p[0] == 45;
    let dstart: usize = if signed {
        1
    } else {
        0
    };
    if dstart == p.len() {
        proof {
            assert(p@.drop_first().len() == 0);
        }
        return None;
    }
    let limit: u64 = if neg {
        0x8000_0000_0000_0000
    } else {
        0x7fff_ffff_ffff_ffff
    };
    let ghost digits = p@.skip(dstart as int);
    let mut acc: u64 = 0;
    let mut over: bool = false;
    let mut i: usize = dstart;
    proof {
        assert(p@.skip(dstart as int).take(0) =~= Seq::<u8>::empty());
    }
    while i < p.len()
        invariant
            dstart <= i <= p@.len(),
            dstart < p@.len(),
            limit == if neg {
                0x8000_0000_0000_0000u64
            } else {
                0x7fff_ffff_ffff_ffffu64
            },
            digits == p@.skip(dstart as int),
            forall|j: int| dstart <= j < i ==> is_digit(#[trigger] p@[j]),
            over <==> digits_val(digits.take(i - dstart)) > limit,
            !over ==> acc == digits_val(digits.take(i - dstart)),
        decreases p@.len() - i,
    {
        let d = p[i];
        if d < 48 || d > 57 {
            proof {
                assert(digits[i - dstart] == p@[i as int]);
                assert(!all_digits(digits));
                if signed {
                    assert(p@.drop_first() =~= digits);
                } else {
                    assert(p@ =~= digits);
                }
            }
            return None;
        }
        proof {
            assert(digits.take(i - dstart + 1).drop_last() =~= digits.take(i - dstart));
            assert(digits.take(i - dstart + 1).last() == p@[i as int]);
        }
        let dv: u64 = (d - 48) as u64;
        if over {
            proof {
                let prev = digits_val(digits.take(i - dstart));
                assert(digits_val(digits.take(i - dstart + 1)) == prev * 10 + dv);
                assert(prev * 10 + dv > limit);
            }
        } else {
            if acc > (limit - dv) / 10 {
                over = true;
                proof {
                    let l = limit as int;
                    let prev = acc as int;
                    assert(prev >= (l - dv) / 10 + 1);
                    assert(((l - dv) / 10) * 10 + (l - dv) % 10 == l - dv);
                    assert(prev * 10 >= ((l - dv) / 10 + 1) * 10) by (nonlinear_arith)
                        requires
                            prev >= (l - dv) / 10 + 1,
                    ;
                    assert(prev * 10 + dv > l);
                }
            } else {
                proof {
                    let l = limit as int;
                    let prev = acc as int;
                    assert(prev <= (l - dv) / 10);
                    assert(prev * 10 <= ((l - dv) / 10) * 10) by (nonlinear_arith)
                        requires
                            prev <= (l - dv) / 10,
                    ;
                    assert(((l - dv) / 10) * 10 <= l - dv);
                    assert(prev * 10 + dv <= l);
                }
                acc = acc * 10 + dv;
            }
        }
        i = i + 1;
    }
    proof {
        assert(digits.take(p@.len() - dstart) =~= digits);
        if signed {
            assert(p@.drop_first() =~= digits);
        } else {
            assert(p@ =~= digits);
        }
    }
    if over {
        return None;
    }
    if neg {
        if acc == 0x8000_0000_0000_0000 {
            Some(i64::MIN)
        } else {
            Some(-(acc as i64))
        }
    } else {
        Some(acc as i64)
    }
}

pub(crate) fn lower_exec(b: u8) -> (r: u8)
    ensures
        r == lower(b),
{
    if 65 <= b && b <= 90 {
        b + 32
    } else {
        b
    }
}

pub(crate) fn is_special_float_exec(q: &[u8]) -> (r: bool)
    ensures
        r == is_special_float(q@),
{
    if q.len() == 3 {
        let a = lower_exec(q[0]);
        let b = lower_exec(q[1]);
        let c = lower_exec(q[2]);
        (a == 105 && b == 110 && c == 102) || (a == 110 && b == 97 && c == 110)
    } else if q.len() == 8 {
        lower_exec(q[0]) == 105 && lower_exec(q[1]) == 110 && lower_exec(q[2]) == 102
            && lower_exec(q[3]) == 105 && lower_exec(q[4]) == 110 && lower_exec(q[5]) == 105
            && lower_exec(q[6]) == 116 && lower_exec(q[7]) == 121
    } else {
        false
    }
}

pub(crate) fn is_mantissa_exec(p: &[u8]) -> (r: bool)
    ensures
        r == is_mantissa(p@),
{
    match find_byte_exec(p, 46, 0) {
        None => p.len() >= 1 && all_digits_exec(p),
        Some(d) => {
            proof {
                crate::model::lemma_find_byte_bounds(p@, 46, 0);
            }
            let n = p.len();
            let ip = slice_range(p, 0, d);
            let fp = slice_range(p, d + 1, n);
            let ipok = all_digits_exec(ip);
            let fpok = all_digits_exec(fp);
            ipok && fpok && (ip.len() >= 1 || fp.len() >= 1)
        },
    }
}

pub(crate) fn exp_digits_exec(p: &[u8]) -> (r: bool)
    ensures
        r == exp_digits_ok(p@),
{
    let q = if p.len() >= 1 && (p[0] == 43 || p[0] == 45) {
        proof {
            assert(p@.skip(1) =~= p@.drop_first());
        }
        tail_from(p, 1)
    } else {
        p
    };
    q.len() >= 1 && all_digits_exec(q)
}

/// Whether `p` is a floating-point literal the double frame accepts.
pub(crate) fn is_double_exec(p: &[u8]) -> (r: bool)
    ensures
        r == is_double_payload(p@),
{
    let q = if p.len() >= 1 && (p[0] == 43 || p[0] == 45) {
        proof {
            assert(p@.skip(1) =~= p@.drop_first());
        }
        tail_from(p, 1)
    } else {
        p
    };
    assert(q@ == strip_sign(p@));
    if is_special_float_exec(q) {
        return true;
    }
    match find_byte_exec(q, 101, 0) {
        Some(e) => {
            proof {
                crate::model::lemma_find_byte_bounds(q@, 101, 0);
            }
            let mant = slice_range(q, 0, e);
            let ex = slice_range(q, e + 1, q.len());
            is_mantissa_exec(mant) && exp_digits_exec(ex)
        },
        None => {
            match find_byte_exec(q, 69, 0) {
                Some(e) => {
                    proof {
                        crate::model::lemma_find_byte_bounds(q@, 69, 0);
                    }
                    let mant = slice_range(q, 0, e);
                    let ex = slice_range(q, e + 1, q.len());
                    is_mantissa_exec(mant) && exp_digits_exec(ex)
                },
                None => is_mantissa_exec(q),
            }
        },
    }
}

/// Byte-wise equality of two slices.
#[verifier::loop_isolation(false)]
pub(crate) fn bytes_eq(a: &[u8], b: &[u8]) -> (r: bool)
    ensures
        r == (a@ == b@),
{
    if a.len() != b.len() {
        proof {
            assert(a@.len() != b@.len());
        }
        return false;
    }
    let mut i: usize = 0;
    while i < a.len()
        invariant
            i <= a@.len(),
            a@.len() == b@.len(),
            forall|j: int| 0 <= j < i ==> a@[j] == b@[j],
        decreases a@.len() - i,
    {
        if a[i] != b[i] {
            return false;
        }
        i = i + 1;
    }
    proof {
        assert(a@ =~= b@);
    }
    true
}

/// Character-wise equality of two string slices, decided on their UTF-8
/// bytes.
pub(crate) fn str_eq(a: &str, b: &str) -> (r: bool)
    ensures
        r == (a@ == b@),
{
    let r = bytes_eq(a.as_bytes(), b.as_bytes());
    proof {
        crate::model::lemma_key_eq(a@, b@);
    }
    r
}

/// Byte-wise lexicographic comparison of two slices.
#[verifier::loop_isolation(false)]
pub(crate) fn slice_lt(a: &[u8], b: &[u8]) -> (r: bool)
    ensures
        r == bytes_lt(a@, b@),
{
    let mut i: usize = 0;
    proof {
        assert(a@.skip(0) =~= a@);
        assert(b@.skip(0) =~= b@);
    }
    while i < a.len() && i < b.len()
        invariant
            i <= a@.len(),
            i <= b@.len(),
            bytes_lt(a@, b@) == bytes_lt(a@.skip(i as int), b@.skip(i as int)),
        decreases a@.len() - i,
    {
        if a[i] < b[i] {
            proof {
                assert(a@.skip(i as int)[0] == a@[i as int]);
                assert(b@.skip(i as int)[0] == b@[i as int]);
            }
            return true;
        }
        if a[i] > b[i] {
            proof {
                assert(a@.skip(i as int)[0] == a@[i as int]);
                assert(b@.skip(i as int)[0] == b@[i as int]);
            }
            return false;
        }
        proof {
            assert(a@.skip(i as int)[0] == a@[i as int]);
            assert(b@.skip(i as int)[0] == b@[i as int]);
            assert(a@.skip(i as int).drop_first() =~= a@.skip(i + 1));
            assert(b@.skip(i as int).drop_first() =~= b@.skip(i + 1));
        }
        i = i + 1;
    }
    proof {
        assert(bytes_lt(a@, b@) == bytes_lt(a@.skip(i as int), b@.skip(i as int)));
    }
    i >= a.len() && i < b.len()
}

} // verus!
