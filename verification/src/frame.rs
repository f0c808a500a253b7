//! The frame value types, their mathematical views, and the encoder.
use vstd::prelude::*;

verus! {

use crate::model::key_lt;
use crate::model::lemma_bytes_lt_trichotomy;
use crate::model::lemma_key_eq;
use crate::model::lemma_map_insert_split;
use crate::model::map_insert;
use crate::model::FrameVal;
use crate::scan::slice_lt;
use vstd::pervasive::VecAdditionalExecFns;
use vstd::string::StringExecFns;
use vstd::utf8::encode_utf8;

broadcast use vstd::std_specs::vec::group_vec_axioms;
use crate::model::crlf;
use crate::model::dec_digits;
use crate::model::frame_enc;
use crate::model::elems_enc;
use crate::model::pairs_enc;
use crate::model::int_text;
use crate::model::len_text;
use crate::model::lemma_elems_enc_snoc;
use crate::model::lemma_pairs_enc_snoc;

/// Decode-side failure: `NotComplete` is the recoverable "need more bytes"
/// signal; the other variants are terminal grammar violations.
#[derive(Debug, Clone, PartialEq)]
pub enum RespError {
    /// The buffer does not yet hold one whole frame.
    NotComplete,
    /// The bytes violate the frame grammar.
    InvalidFrame(String),
    /// The leading type byte is not one the protocol defines.
    InvalidFrameType(String),
}

/// How a length-scan result reflects a reference-parser outcome: the exact
/// byte count on success, `NotComplete` exactly on incomplete input, and a
/// terminal error exactly on malformed input.
pub open spec fn scan_result<T>(o: crate::model::Scanned<T>, r: Result<usize, RespError>) -> bool {
    match o {
        crate::model::Scanned::Done(f, n) => r matches Ok(m) && m == n,
        crate::model::Scanned::Incomplete => r matches Err(e) && e is NotComplete,
        crate::model::Scanned::Malformed => r matches Err(e) && !(e is NotComplete),
    }
}

/// How a parse result reflects a reference-parser outcome: the decoded
/// frame's view and the exact byte count on success, and the two error
/// classes exactly as `scan_result`.
pub open spec fn parse_result(
    o: crate::model::Scanned<FrameVal>,
    r: Result<(RespFrame, usize), RespError>,
) -> bool {
    match o {
        crate::model::Scanned::Done(f, n) => r matches Ok(p) && p.0@ == f && p.1 == n,
        crate::model::Scanned::Incomplete => r matches Err(e) && e is NotComplete,
        crate::model::Scanned::Malformed => r matches Err(e) && !(e is NotComplete),
    }
}

pub(crate) fn err_frame(msg: &str) -> (r: RespError)
    ensures
        r is InvalidFrame,
{
    RespError::InvalidFrame(String::from_str(msg))
}

pub(crate) fn err_type(msg: &str) -> (r: RespError)
    ensures
        r is InvalidFrameType,
{
    RespError::InvalidFrameType(String::from_str(msg))
}

/// An ordered sequence of frames, decoded from an `*` aggregate.
#[derive(Debug, PartialEq)]
pub struct RespArray(pub Vec<RespFrame>);

/// An ordered sequence of frames, decoded from a `~` aggregate; duplicates
/// and order are preserved as decoded.
#[derive(Debug, PartialEq)]
pub struct RespSet(pub Vec<RespFrame>);

/// One wire value. `Double` carries the decimal text of the number exactly
/// as it stands on the wire between the `,` and the terminator; `MapData`
/// holds its entries sorted by key bytes with no duplicate keys.
#[derive(Debug, PartialEq)]
pub enum RespFrame {
    SimpleString(String),
    Error(String),
    Integer(i64),
    BulkString(Vec<u8>),
    NullBulkString,
    Array(RespArray),
    NullArray,
    Null,
    Boolean(bool),
    Double(String),
    MapData(Vec<(String, RespFrame)>),
    SetData(RespSet),
}

pub open spec fn arr_view(s: Seq<RespFrame>) -> Seq<FrameVal>
    decreases s,
{
    if s.len() == 0 {
        Seq::empty()
    } else {
        arr_view(s.drop_last()).push(frame_view(s.last()))
    }
}

pub open spec fn entries_view(s: Seq<(String, RespFrame)>) -> Seq<(Seq<char>, FrameVal)>
    decreases s,
{
    if s.len() == 0 {
        Seq::empty()
    } else {
        entries_view(s.drop_last()).push((s.last().0@, frame_view(s.last().1)))
    }
}

/// Pointwise reading of `arr_view`.
pub proof fn lemma_arr_view(s: Seq<RespFrame>)
    ensures
        arr_view(s).len() == s.len(),
        forall|i: int| 0 <= i < s.len() ==> arr_view(s)[i] == frame_view(#[trigger] s[i]),
    decreases s.len(),
{
    if s.len() > 0 {
        lemma_arr_view(s.drop_last());
        assert forall|i: int| 0 <= i < s.len() implies arr_view(s)[i] == frame_view(
            #[trigger] s[i],
        ) by {
            if i < s.len() - 1 {
                assert(s.drop_last()[i] == s[i]);
                assert(arr_view(s)[i] == arr_view(s.drop_last())[i]);
            } else {
                assert(s.last() == s[i]);
            }
        }
    }
}

/// Pointwise reading of `entries_view`.
pub proof fn lemma_entries_view(s: Seq<(String, RespFrame)>)
    ensures
        entries_view(s).len() == s.len(),
        forall|i: int| 0 <= i < s.len() ==> entries_view(s)[i] == ((#[trigger] s[i]).0@,
            frame_view(s[i].1)),
    decreases s.len(),
{
    if s.len() > 0 {
        lemma_entries_view(s.drop_last());
        assert forall|i: int| 0 <= i < s.len() implies entries_view(s)[i] == ((#[trigger] s[i]).0@,
            frame_view(s[i].1)) by {
            if i < s.len() - 1 {
                assert(s.drop_last()[i] == s[i]);
                assert(entries_view(s)[i] == entries_view(s.drop_last())[i]);
            } else {
                assert(s.last() == s[i]);
            }
        }
    }
}

pub open spec fn frame_view(f: RespFrame) -> FrameVal
    decreases f,
{
    match f {
        RespFrame::SimpleString(s) => FrameVal::SimpleString(s@),
        RespFrame::Error(s) => FrameVal::Error(s@),
        RespFrame::Integer(v) => FrameVal::Integer(v as int),
        RespFrame::BulkString(b) => FrameVal::BulkString(b@),
        RespFrame::NullBulkString => FrameVal::NullBulkString,
        RespFrame::Array(a) => FrameVal::Array(arr_view(a.0@)),
        RespFrame::NullArray => FrameVal::NullArray,
        RespFrame::Null => FrameVal::Null,
        RespFrame::Boolean(b) => FrameVal::Boolean(b),
        RespFrame::Double(t) => FrameVal::Double(t@),
        RespFrame::MapData(m) => FrameVal::MapData(entries_view(m@)),
        RespFrame::SetData(st) => FrameVal::SetData(arr_view(st.0@)),
    }
}

impl View for RespFrame {
    type V = FrameVal;

    open spec fn view(&self) -> FrameVal {
        frame_view(*self)
    }
}

impl View for RespArray {
    type V = Seq<FrameVal>;

    open spec fn view(&self) -> Seq<FrameVal> {
        arr_view(self.0@)
    }
}

impl View for RespSet {
    type V = Seq<FrameVal>;

    open spec fn view(&self) -> Seq<FrameVal> {
        arr_view(self.0@)
    }
}

impl RespArray {
    pub fn new(frames: Vec<RespFrame>) -> (r: RespArray)
        ensures
            r@ == arr_view(frames@),
    {
        RespArray(frames)
    }

    pub fn len(&self) -> (r: usize)
        ensures
            r == self@.len(),
    {
        proof {
            lemma_arr_view(self.0@);
        }
        self.0.len()
    }
}

impl RespSet {
    pub fn new(frames: Vec<RespFrame>) -> (r: RespSet)
        ensures
            r@ == arr_view(frames@),
    {
        RespSet(frames)
    }

    pub fn len(&self) -> (r: usize)
        ensures
            r == self@.len(),
    {
        proof {
            lemma_arr_view(self.0@);
        }
        self.0.len()
    }
}

/// Append a byte slice.
pub(crate) fn push_bytes(out: &mut Vec<u8>, s: &[u8])
    ensures
        final(out)@ == old(out)@ + s@,
{
    let mut i: usize = 0;
    assert(old(out)@ + s@.take(0) =~= old(out)@);
    while i < s.len()
        invariant
            i <= s@.len(),
            out@ == old(out)@ + s@.take(i as int),
        decreases s@.len() - i,
    {
        out.push(s[i]);
        assert(old(out)@ + s@.take(i as int) + seq![s@[i as int]] =~= old(out)@ + s@.take(
            i + 1,
        ));
        i = i + 1;
    }
    assert(s@.take(s@.len() as int) =~= s@);
}

/// Append the line terminator.
pub(crate) fn push_crlf(out: &mut Vec<u8>)
    ensures
        final(out)@ == old(out)@ + crlf(),
{
    out.push(13);
    out.push(10);
    assert(old(out)@.push(13u8).push(10u8) =~= old(out)@ + crlf());
}

/// Append the decimal digits of `n`, most significant first.
pub(crate) fn push_digits(out: &mut Vec<u8>, n: u64)
    ensures
        final(out)@ == old(out)@ + dec_digits(n as nat),
    decreases n,
{
    if n < 10 {
        out.push(48 + n as u8);
        assert(old(out)@.push((48 + n as nat) as u8) =~= old(out)@ + dec_digits(n as nat));
    } else {
        push_digits(out, n / 10);
        out.push(48 + (n % 10) as u8);
        assert(old(out)@ + dec_digits((n / 10) as nat) + seq![(48 + (n as nat) % 10) as u8]
            =~= old(out)@ + dec_digits(n as nat));
    }
}

/// Append the signed decimal text of an integer frame payload.
pub(crate) fn push_int(out: &mut Vec<u8>, v: i64)
    ensures
        final(out)@ == old(out)@ + int_text(v as int),
{
    if v < 0 {
        out.push(45);
        let mag: u64 = ((-(v + 1)) as u64) + 1;
        assert(mag as int == -(v as int));
        push_digits(out, mag);
        assert(old(out)@.push(45u8) + dec_digits(mag as nat) =~= old(out)@ + int_text(
            v as int,
        ));
    } else {
        out.push(43);
        push_digits(out, v as u64);
        assert(old(out)@.push(43u8) + dec_digits((v as u64) as nat) =~= old(out)@ + int_text(
            v as int,
        ));
    }
}

impl RespFrame {
    /// Serialize this frame, and recursively its children, to the exact
    /// canonical wire bytes `frame_enc` describes. Encoding never fails.
    #[verifier::loop_isolation(false)]
    pub fn encode(&self) -> (r: Vec<u8>)
        ensures
            r@ == frame_enc(self@),
        decreases *self,
    {
        let mut out: Vec<u8> = Vec::new();
        match self {
            RespFrame::SimpleString(t) => {
                out.push(43);
                push_bytes(&mut out, t.as_str().as_bytes());
                push_crlf(&mut out);
                assert(out@ =~= frame_enc(self@));
            },
            RespFrame::Error(t) => {
                out.push(45);
                push_bytes(&mut out, t.as_str().as_bytes());
                push_crlf(&mut out);
                assert(out@ =~= frame_enc(self@));
            },
            RespFrame::Integer(v) => {
                out.push(58);
                push_int(&mut out, *v);
                push_crlf(&mut out);
                assert(out@ =~= frame_enc(self@));
            },
            RespFrame::BulkString(b) => {
                out.push(36);
                push_digits(&mut out, b.len() as u64);
                push_crlf(&mut out);
                push_bytes(&mut out, b.as_slice());
                push_crlf(&mut out);
                assert(out@ =~= frame_enc(self@));
            },
            RespFrame::NullBulkString => {
                out.push(36);
                out.push(45);
                out.push(49);
                push_crlf(&mut out);
                assert(out@ =~= frame_enc(self@));
            },
            RespFrame::Array(a) => {
                proof {
                    lemma_arr_view(a.0@);
                }
                out.push(42);
                push_digits(&mut out, a.0.len() as u64);
                push_crlf(&mut out);
                let ghost base = out@;
                let ghost es = arr_view(a.0@);
                assert(base + elems_enc(es.take(0)) =~= base);
                let mut i: usize = 0;
                while i < a.0.len()
                    invariant
                        i <= a.0@.len(),
                        es == arr_view(a.0@),
                        es.len() == a.0@.len(),
                        forall|j: int| 0 <= j < a.0@.len() ==> es[j] == frame_view(
                            #[trigger] a.0@[j],
                        ),
                        out@ == base + elems_enc(es.take(i as int)),
                    decreases a.0@.len() - i,
                {
                    proof {
                        assert(decreases_to!(*self => a.0));
                        assert(decreases_to!(a.0 => a.0@[i as int]));
                    }
                    let cb = a.0[i].encode();
                    push_bytes(&mut out, cb.as_slice());
                    proof {
                        assert(es.take(i + 1).drop_last() =~= es.take(i as int));
                        assert(es.take(i + 1).last() == frame_view(a.0@[i as int]));
                        lemma_elems_enc_snoc(es.take(i + 1));
                        assert(out@ =~= base + elems_enc(es.take(i + 1)));
                    }
                    i = i + 1;
                }
                assert(es.take(es.len() as int) =~= es);
                assert(out@ =~= frame_enc(self@));
            },
            RespFrame::NullArray => {
                out.push(42);
                out.push(45);
                out.push(49);
                push_crlf(&mut out);
                assert(out@ =~= frame_enc(self@));
            },
            RespFrame::Null => {
                out.push(95);
                push_crlf(&mut out);
                assert(out@ =~= frame_enc(self@));
            },
            RespFrame::Boolean(b) => {
                out.push(35);
                if *b {
                    out.push(116);
                } else {
                    out.push(102);
                }
                push_crlf(&mut out);
                assert(out@ =~= frame_enc(self@));
            },
            RespFrame::Double(t) => {
                out.push(44);
                push_bytes(&mut out, t.as_str().as_bytes());
                push_crlf(&mut out);
                assert(out@ =~= frame_enc(self@));
            },
            RespFrame::MapData(m) => {
                proof {
                    lemma_entries_view(m@);
                }
                out.push(37);
                push_digits(&mut out, m.len() as u64);
                push_crlf(&mut out);
                let ghost base = out@;
                let ghost es = entries_view(m@);
                assert(base + pairs_enc(es.take(0)) =~= base);
                let mut i: usize = 0;
                while i < m.len()
                    invariant
                        i <= m@.len(),
                        es == entries_view(m@),
                        es.len() == m@.len(),
                        forall|j: int| 0 <= j < m@.len() ==> es[j] == ((#[trigger] m@[j]).0@,
                            frame_view(m@[j].1)),
                        out@ == base + pairs_enc(es.take(i as int)),
                    decreases m@.len() - i,
                {
                    out.push(43);
                    push_bytes(&mut out, m[i].0.as_str().as_bytes());
                    push_crlf(&mut out);
                    proof {
                        assert(decreases_to!(*self => *m));
                        assert(decreases_to!(*m => m@[i as int]));
                        assert(decreases_to!(m@[i as int] => m@[i as int].1));
                    }
                    let cb = m[i].1.encode();
                    push_bytes(&mut out, cb.as_slice());
                    proof {
                        assert(es.take(i + 1).drop_last() =~= es.take(i as int));
                        assert(es.take(i + 1).last() == (m@[i as int].0@, frame_view(
                            m@[i as int].1,
                        )));
                        lemma_pairs_enc_snoc(es.take(i + 1));
                        assert(out@ =~= base + pairs_enc(es.take(i + 1)));
                    }
                    i = i + 1;
                }
                assert(es.take(es.len() as int) =~= es);
                assert(out@ =~= frame_enc(self@));
            },
            RespFrame::SetData(st) => {
                proof {
                    lemma_arr_view(st.0@);
                }
                out.push(126);
                push_digits(&mut out, st.0.len() as u64);
                push_crlf(&mut out);
                let ghost base = out@;
                let ghost es = arr_view(st.0@);
                assert(base + elems_enc(es.take(0)) =~= base);
                let mut i: usize = 0;
                while i < st.0.len()
                    invariant
                        i <= st.0@.len(),
                        es == arr_view(st.0@),
                        es.len() == st.0@.len(),
                        forall|j: int| 0 <= j < st.0@.len() ==> es[j] == frame_view(
                            #[trigger] st.0@[j],
                        ),
                        out@ == base + elems_enc(es.take(i as int)),
                    decreases st.0@.len() - i,
                {
                    proof {
                        assert(decreases_to!(*self => st.0));
                        assert(decreases_to!(st.0 => st.0@[i as int]));
                    }
                    let cb = st.0[i].encode();
                    push_bytes(&mut out, cb.as_slice());
                    proof {
                        assert(es.take(i + 1).drop_last() =~= es.take(i as int));
                        assert(es.take(i + 1).last() == frame_view(st.0@[i as int]));
                        lemma_elems_enc_snoc(es.take(i + 1));
                        assert(out@ =~= base + elems_enc(es.take(i + 1)));
                    }
                    i = i + 1;
                }
                assert(es.take(es.len() as int) =~= es);
                assert(out@ =~= frame_enc(self@));
            },
        }
        out
    }
}

/// Insert an entry into a key-ordered entry vector, replacing an entry
/// whose key is already present, so that the vector's view is `map_insert`
/// of its old view.
#[verifier::loop_isolation(false)]
pub(crate) fn entries_insert(entries: &mut Vec<(String, RespFrame)>, key: String, val: RespFrame)
    ensures
        entries_view(final(entries)@) == map_insert(
            entries_view(old(entries)@),
            key@,
            frame_view(val),
        ),
{
    proof {
        lemma_entries_view(entries@);
    }
    let ghost ev = entries_view(entries@);
    let mut j: usize = 0;
    let mut stop: bool = false;
    while !stop && j < entries.len()
        invariant
            j <= entries@.len(),
            forall|i: int| 0 <= i < j ==> key_lt((#[trigger] ev[i]).0, key@),
            stop ==> j < entries@.len() && !key_lt(ev[j as int].0, key@),
        decreases
                entries@.len() - j,
                if stop {
                    0int
                } else {
                    1int
                },
    {
        if slice_lt(entries[j].0.as_str().as_bytes(), key.as_str().as_bytes()) {
            j = j + 1;
        } else {
            stop = true;
        }
    }
    proof {
        lemma_map_insert_split(ev, key@, frame_view(val), j as int);
    }
    if j < entries.len() {
        proof {
            lemma_bytes_lt_trichotomy(encode_utf8(ev[j as int].0), encode_utf8(key@));
            lemma_key_eq(ev[j as int].0, key@);
        }
        let same = entries[j].0 == key;
        if same {
            entries.set(j, (key, val));
            proof {
                lemma_entries_view(entries@);
                let nv = entries_view(entries@);
                let tv = ev.update(j as int, (key@, frame_view(val)));
                assert forall|i: int| 0 <= i < nv.len() implies nv[i] == tv[i] by {
                    if i != j {
                        assert(entries@[i] == old(entries)@[i]);
                    } else {
                        assert(entries@[i] == (key, val));
                    }
                }
                assert(entries_view(entries@) =~= ev.update(j as int, (key@, frame_view(val))));
            }
        } else {
            assert(key_lt(key@, ev[j as int].0));
            entries.insert(j, (key, val));
            proof {
                lemma_entries_view(entries@);
                let nv = entries_view(entries@);
                let tv = ev.take(j as int) + seq![(key@, frame_view(val))] + ev.skip(j as int);
                assert forall|i: int| 0 <= i < nv.len() implies nv[i] == tv[i] by {
                    if i < j {
                        assert(entries@[i] == old(entries)@[i]);
                        assert(tv[i] == ev[i]);
                    } else if i == j {
                        assert(entries@[i] == (key, val));
                    } else {
                        assert(entries@[i] == old(entries)@[i - 1]);
                        assert(tv[i] == ev[i - 1]);
                    }
                }
                assert(entries_view(entries@) =~= ev.take(j as int) + seq![
                    (key@, frame_view(val)),
                ] + ev.skip(j as int));
            }
        }
    } else {
        entries.push((key, val));
        proof {
            lemma_entries_view(entries@);
            let nv = entries_view(entries@);
            let tv = ev.push((key@, frame_view(val)));
            assert forall|i: int| 0 <= i < nv.len() implies nv[i] == tv[i] by {
                if i < ev.len() {
                    assert(entries@[i] == old(entries)@[i]);
                } else {
                    assert(entries@[i] == (key, val));
                }
            }
            assert(entries_view(entries@) =~= ev.push((key@, frame_view(val))));
        }
    }
}

/// `entries_view` maps an in-place update pointwise.
pub proof fn lemma_entries_view_update(s: Seq<(String, RespFrame)>, i: int, p: (String, RespFrame))
    requires
        0 <= i < s.len(),
    ensures
        entries_view(s.update(i, p)) == entries_view(s).update(i, (p.0@, frame_view(p.1))),
{
    lemma_entries_view(s);
    lemma_entries_view(s.update(i, p));
    let a = entries_view(s.update(i, p));
    let b = entries_view(s).update(i, (p.0@, frame_view(p.1)));
    assert forall|j: int| 0 <= j < a.len() implies a[j] == b[j] by {
        if j != i {
            assert(s.update(i, p)[j] == s[j]);
        } else {
            assert(s.update(i, p)[j] == p);
        }
    }
    assert(a =~= b);
}

/// `entries_view` maps an append pointwise.
pub proof fn lemma_entries_view_push(s: Seq<(String, RespFrame)>, p: (String, RespFrame))
    ensures
        entries_view(s.push(p)) == entries_view(s).push((p.0@, frame_view(p.1))),
{
    lemma_entries_view(s);
    lemma_entries_view(s.push(p));
    let a = entries_view(s.push(p));
    let b = entries_view(s).push((p.0@, frame_view(p.1)));
    assert forall|j: int| 0 <= j < a.len() implies a[j] == b[j] by {
        if j < s.len() {
            assert(s.push(p)[j] == s[j]);
        } else {
            assert(s.push(p)[j] == p);
        }
    }
    assert(a =~= b);
}

impl RespSet {
    /// Serialize this set to its canonical wire bytes: the `~` header with
    /// the element count, then each element's encoding in order.
    #[verifier::loop_isolation(false)]
    pub fn encode(&self) -> (r: Vec<u8>)
        ensures
            r@ == frame_enc(FrameVal::SetData(self@)),
    {
        proof {
            lemma_arr_view(self.0@);
        }
        let mut out: Vec<u8> = Vec::new();
        out.push(126);
        push_digits(&mut out, self.0.len() as u64);
        push_crlf(&mut out);
        let ghost base = out@;
        let ghost es = arr_view(self.0@);
        assert(base + elems_enc(es.take(0)) =~= base);
        let mut i: usize = 0;
        while i < self.0.len()
            invariant
                i <= self.0@.len(),
                out@ == base + elems_enc(es.take(i as int)),
            decreases self.0@.len() - i,
        {
            let cb = self.0[i].encode();
            push_bytes(&mut out, cb.as_slice());
            proof {
                assert(es.take(i + 1).drop_last() =~= es.take(i as int));
                assert(es.take(i + 1).last() == frame_view(self.0@[i as int]));
                lemma_elems_enc_snoc(es.take(i + 1));
                assert(out@ =~= base + elems_enc(es.take(i + 1)));
            }
            i = i + 1;
        }
        assert(es.take(es.len() as int) =~= es);
        assert(out@ =~= frame_enc(FrameVal::SetData(self@)));
        out
    }
}

impl RespFrame {
    /// A structurally equal copy of this frame.
    #[verifier::loop_isolation(false)]
    pub fn duplicate(&self) -> (r: RespFrame)
        ensures
            r@ == self@,
        decreases *self,
    {
        match self {
            RespFrame::SimpleString(t) => RespFrame::SimpleString(t.clone()),
            RespFrame::Error(t) => RespFrame::Error(t.clone()),
            RespFrame::Integer(v) => RespFrame::Integer(*v),
            RespFrame::BulkString(b) => RespFrame::BulkString(
                vstd::slice::slice_to_vec(b.as_slice()),
            ),
            RespFrame::NullBulkString => RespFrame::NullBulkString,
            RespFrame::Array(a) => {
                let elems = dup_frames(&a.0);
                RespFrame::Array(RespArray(elems))
            },
            RespFrame::NullArray => RespFrame::NullArray,
            RespFrame::Null => RespFrame::Null,
            RespFrame::Boolean(b) => RespFrame::Boolean(*b),
            RespFrame::Double(t) => RespFrame::Double(t.clone()),
            RespFrame::MapData(m) => {
                let entries = dup_entries(m);
                RespFrame::MapData(entries)
            },
            RespFrame::SetData(st) => {
                let elems = dup_frames(&st.0);
                RespFrame::SetData(RespSet(elems))
            },
        }
    }
}

/// Copy a frame vector element by element.
#[verifier::loop_isolation(false)]
pub(crate) fn dup_frames(v: &Vec<RespFrame>) -> (r: Vec<RespFrame>)
    ensures
        arr_view(r@) == arr_view(v@),
    decreases *v, 0int,
{
    proof {
        lemma_arr_view(v@);
    }
    let mut out: Vec<RespFrame> = Vec::new();
    let mut i: usize = 0;
    assert(arr_view(out@) =~= arr_view(v@).take(0));
    while i < v.len()
        invariant
            i <= v@.len(),
            arr_view(out@) == arr_view(v@).take(i as int),
        decreases v@.len() - i,
    {
        proof {
            assert(decreases_to!(*v => v@[i as int]));
        }
        let d = v[i].duplicate();
        let ghost prev = out@;
        out.push(d);
        proof {
            assert(out@.drop_last() =~= prev);
            assert(arr_view(out@) == arr_view(prev).push(frame_view(d)));
            assert(arr_view(v@).take(i + 1).drop_last() =~= arr_view(v@).take(i as int));
            assert(arr_view(out@) =~= arr_view(v@).take(i + 1));
        }
        i = i + 1;
    }
    assert(arr_view(v@).take(v@.len() as int) =~= arr_view(v@));
    out
}

/// Copy an entry vector element by element.
#[verifier::loop_isolation(false)]
pub(crate) fn dup_entries(v: &Vec<(String, RespFrame)>) -> (r: Vec<(String, RespFrame)>)
    ensures
        entries_view(r@) == entries_view(v@),
    decreases *v, 0int,
{
    proof {
        lemma_entries_view(v@);
    }
    let mut out: Vec<(String, RespFrame)> = Vec::new();
    let mut i: usize = 0;
    assert(entries_view(out@) =~= entries_view(v@).take(0));
    while i < v.len()
        invariant
            i <= v@.len(),
            entries_view(out@) == entries_view(v@).take(i as int),
        decreases v@.len() - i,
    {
        proof {
            assert(decreases_to!(*v => v@[i as int]));
            assert(decreases_to!(v@[i as int] => v@[i as int].1));
        }
        let k = v[i].0.clone();
        let d = v[i].1.duplicate();
        let ghost prev = out@;
        out.push((k, d));
        proof {
            assert(out@.drop_last() =~= prev);
            assert(entries_view(out@) == entries_view(prev).push((k@, frame_view(d))));
            assert(entries_view(v@).take(i + 1).drop_last() =~= entries_view(v@).take(i as int));
            assert(entries_view(out@) =~= entries_view(v@).take(i + 1));
        }
        i = i + 1;
    }
    assert(entries_view(v@).take(v@.len() as int) =~= entries_view(v@));
    out
}

} // verus!
